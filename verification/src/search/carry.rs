//! What a search keeps of the nodes that it finds: the run of children of
//! each node holds the same actions, perhaps in another order, and the
//! parents stored for a node stay, with new ones added behind them.
use super::generation::{slot_of, GenView};
use super::node::{Action, Node};
use super::storage::{holds, spans, Index, IndexRange};
use super::tree::{gen_ok, refreshed};
use crate::eval::Evaluator;
use vstd::prelude::*;

verus! {

/// True if the action `later` is the action `earlier` after some searches
/// passed it: the same move to the same node with the same reward, made with
/// the same piece, and passed no less often.
pub open spec fn same_action<E: Evaluator>(earlier: Action<E>, later: Action<E>) -> bool {
    &&& later.mv == earlier.mv
    &&& later.node == earlier.node
    &&& later.reward == earlier.reward
    &&& later.current_piece == earlier.current_piece
    &&& later.visits >= earlier.visits
}

/// True if `after` holds the actions `before` in the order that `from` and
/// `to` give: `after[j]` stems from `before[from[j]]`, and `before[i]` went
/// to `after[to[i]]`.
pub open spec fn reordered<E: Evaluator>(
    before: Seq<Action<E>>,
    after: Seq<Action<E>>,
    from: Seq<int>,
    to: Seq<int>,
) -> bool {
    &&& after.len() == before.len()
    &&& from.len() == before.len()
    &&& to.len() == before.len()
    &&& forall|j: int|
        0 <= j < after.len() ==> 0 <= #[trigger] from[j] < before.len() && same_action(
            before[from[j]],
            after[j],
        )
    &&& forall|i: int| 0 <= i < before.len() ==> 0 <= #[trigger] to[i] < after.len() && from[to[i]] == i
}

/// True if `after` holds the same actions as `before`, perhaps in another
/// order and passed more often.
pub open spec fn same_actions<E: Evaluator>(before: Seq<Action<E>>, after: Seq<Action<E>>) -> bool {
    exists|from: Seq<int>, to: Seq<int>| #[trigger] reordered(before, after, from, to)
}

/// True if the generation `after` carries what `before` held: every node
/// stays at its place; a node with children has the same run, with the same
/// actions in it, perhaps in another order; and the parents stored for a node
/// stay, with new ones added behind them.
pub open spec fn gen_carries<E: Evaluator>(after: GenView<E>, before: GenView<E>) -> bool {
    forall|i: Index| #[trigger]
        holds(before.nodes, i) ==> {
            &&& holds(after.nodes, i)
            &&& before.node(i).children is Some ==> after.node(i).children == before.node(i).children
                && same_actions(before.children(i), after.children(i))
            &&& before.parents.contains_key(slot_of(i)) ==> after.parents.contains_key(slot_of(i))
                && before.parents[slot_of(i)].is_prefix_of(after.parents[slot_of(i)])
        }
}

/// True if the generations `after` carry what the generations `before` held.
pub open spec fn carries<E: Evaluator>(after: Seq<GenView<E>>, before: Seq<GenView<E>>) -> bool {
    &&& after.len() >= before.len()
    &&& forall|d: int| 0 <= d < before.len() ==> #[trigger] gen_carries(after[d], before[d])
}

/// Actions are the same as themselves.
pub proof fn lemma_same_actions_refl<E: Evaluator>(items: Seq<Action<E>>)
    ensures
        same_actions(items, items),
{
    let id = Seq::new(items.len(), |j: int| j);
    assert(reordered(items, items, id, id));
}

/// What is the same over two steps is the same over both.
pub proof fn lemma_same_actions_trans<E: Evaluator>(
    first: Seq<Action<E>>,
    mid: Seq<Action<E>>,
    last: Seq<Action<E>>,
)
    requires
        same_actions(first, mid),
        same_actions(mid, last),
    ensures
        same_actions(first, last),
{
    let (f1, t1) = choose|from: Seq<int>, to: Seq<int>| #[trigger] reordered(first, mid, from, to);
    let (f2, t2) = choose|from: Seq<int>, to: Seq<int>| #[trigger] reordered(mid, last, from, to);
    let from = Seq::new(first.len(), |j: int| f1[f2[j]]);
    let to = Seq::new(first.len(), |i: int| t2[t1[i]]);
    assert forall|j: int| 0 <= j < last.len() implies 0 <= #[trigger] from[j] < first.len()
        && same_action(first[from[j]], last[j]) by {
        let m = f2[j];
        assert(same_action(mid[m], last[j]));
        assert(same_action(first[f1[m]], mid[m]));
    }
    assert forall|i: int| 0 <= i < first.len() implies 0 <= #[trigger] to[i] < last.len() && from[to[i]]
        == i by {
        let m = t1[i];
        assert(f1[m] == i);
        assert(f2[t2[m]] == m);
    }
    assert(reordered(first, last, from, to));
}

/// Actions that were refreshed are the same actions in another order.
pub proof fn lemma_refreshed_same<E: Evaluator>(
    before: Seq<Action<E>>,
    next: GenView<E>,
    items: Seq<Action<E>>,
    from: Seq<int>,
    to: Seq<int>,
)
    requires
        refreshed(before, next, items, from, to),
    ensures
        same_actions(before, items),
{
    assert(reordered(before, items, from, to));
}

/// True if `after` holds the actions `before` in the order that `from` and
/// `to` give, each passed at least once more, unless its count of visits
/// cannot rise.
pub open spec fn climbed<E: Evaluator>(
    before: Seq<Action<E>>,
    after: Seq<Action<E>>,
    from: Seq<int>,
    to: Seq<int>,
) -> bool {
    &&& reordered(before, after, from, to)
    &&& forall|j: int|
        0 <= j < after.len() ==> (#[trigger] after[j]).visits > before[from[j]].visits
            || before[from[j]].visits == u32::MAX
}

/// True if `after` holds the same actions as `before`, perhaps in another
/// order, and a search has passed each of them at least once more: its
/// count of visits has risen, unless it cannot rise.
pub open spec fn raised<E: Evaluator>(before: Seq<Action<E>>, after: Seq<Action<E>>) -> bool {
    exists|from: Seq<int>, to: Seq<int>| #[trigger] climbed(before, after, from, to)
}

/// Actions that were refreshed have been passed once more.
pub proof fn lemma_refreshed_raised<E: Evaluator>(
    before: Seq<Action<E>>,
    next: GenView<E>,
    items: Seq<Action<E>>,
    from: Seq<int>,
    to: Seq<int>,
)
    requires
        refreshed(before, next, items, from, to),
    ensures
        raised(before, items),
{
    assert(reordered(before, items, from, to));
    assert(climbed(before, items, from, to));
}

/// Actions that were passed once more, and are the same afterwards, have
/// been passed once more.
pub proof fn lemma_raised_then_same<E: Evaluator>(
    first: Seq<Action<E>>,
    mid: Seq<Action<E>>,
    last: Seq<Action<E>>,
)
    requires
        raised(first, mid),
        same_actions(mid, last),
    ensures
        raised(first, last),
{
    let (f1, t1) = choose|from: Seq<int>, to: Seq<int>| #[trigger] climbed(first, mid, from, to);
    let (f2, t2) = choose|from: Seq<int>, to: Seq<int>| #[trigger] reordered(mid, last, from, to);
    let from = Seq::new(first.len(), |j: int| f1[f2[j]]);
    let to = Seq::new(first.len(), |i: int| t2[t1[i]]);
    assert forall|j: int| 0 <= j < last.len() implies 0 <= #[trigger] from[j] < first.len()
        && same_action(first[from[j]], last[j]) by {
        let m = f2[j];
        assert(same_action(mid[m], last[j]));
        assert(same_action(first[f1[m]], mid[m]));
    }
    assert forall|i: int| 0 <= i < first.len() implies 0 <= #[trigger] to[i] < last.len() && from[to[i]]
        == i by {
        let m = t1[i];
        assert(f1[m] == i);
        assert(f2[t2[m]] == m);
    }
    assert forall|j: int| 0 <= j < last.len() implies (#[trigger] last[j]).visits > first[from[j]].visits
        || first[from[j]].visits == u32::MAX by {
        let m = f2[j];
        assert(same_action(mid[m], last[j]));
        assert(mid[m].visits > first[f1[m]].visits || first[f1[m]].visits == u32::MAX);
    }
    assert(climbed(first, last, from, to));
}

/// Actions that are the same, and are passed once more afterwards, have been
/// passed once more.
pub proof fn lemma_same_then_raised<E: Evaluator>(
    first: Seq<Action<E>>,
    mid: Seq<Action<E>>,
    last: Seq<Action<E>>,
)
    requires
        same_actions(first, mid),
        raised(mid, last),
    ensures
        raised(first, last),
{
    let (f1, t1) = choose|from: Seq<int>, to: Seq<int>| #[trigger] reordered(first, mid, from, to);
    let (f2, t2) = choose|from: Seq<int>, to: Seq<int>| #[trigger] climbed(mid, last, from, to);
    let from = Seq::new(first.len(), |j: int| f1[f2[j]]);
    let to = Seq::new(first.len(), |i: int| t2[t1[i]]);
    assert forall|j: int| 0 <= j < last.len() implies 0 <= #[trigger] from[j] < first.len()
        && same_action(first[from[j]], last[j]) by {
        let m = f2[j];
        assert(same_action(mid[m], last[j]));
        assert(same_action(first[f1[m]], mid[m]));
    }
    assert forall|i: int| 0 <= i < first.len() implies 0 <= #[trigger] to[i] < last.len() && from[to[i]]
        == i by {
        let m = t1[i];
        assert(f1[m] == i);
        assert(f2[t2[m]] == m);
    }
    assert forall|j: int| 0 <= j < last.len() implies (#[trigger] last[j]).visits > first[from[j]].visits
        || first[from[j]].visits == u32::MAX by {
        let m = f2[j];
        assert(last[j].visits > mid[m].visits || mid[m].visits == u32::MAX);
        assert(same_action(first[f1[m]], mid[m]));
    }
    assert(climbed(first, last, from, to));
}

/// True if `path[k]`, a node of generation `e + k`, is stored as a parent of
/// `path[k + 1]` in the generation behind it.
pub open spec fn linked<E: Evaluator>(gens: Seq<GenView<E>>, e: int, path: Seq<Index>, k: int) -> bool {
    &&& gens[e + k + 1].parents.contains_key(slot_of(path[k + 1]))
    &&& gens[e + k + 1].parents[slot_of(path[k + 1])].contains(slot_of(path[k]))
}

/// True if the nodes of `path` lead back from the node at `at` of generation
/// `d` to generation `e`, one generation at a step: `path[k]` is a node of
/// generation `e + k`, stored as a parent of `path[k + 1]`, and the last of
/// them is the node at `at`.
pub open spec fn trail<E: Evaluator>(
    gens: Seq<GenView<E>>,
    d: int,
    at: Index,
    e: int,
    path: Seq<Index>,
) -> bool {
    &&& 0 <= e <= d
    &&& path.len() == d - e + 1
    &&& path[d - e] == at
    &&& forall|k: int| 0 <= k < d - e ==> #[trigger] linked(gens, e, path, k)
}

/// True if the node at `p` of generation `e` lies on the way back from the
/// node at `at` of generation `d`: it is that node, or it is stored as a
/// parent of a node on the way back in the generation behind it.
pub open spec fn way_back<E: Evaluator>(
    gens: Seq<GenView<E>>,
    d: int,
    at: Index,
    e: int,
    p: Index,
) -> bool {
    exists|path: Seq<Index>| #[trigger] trail(gens, d, at, e, path) && path[0] == p
}

/// The way back starts at the node itself, and at no other node of its
/// generation.
pub proof fn lemma_way_back_start<E: Evaluator>(gens: Seq<GenView<E>>, d: int, at: Index, p: Index)
    requires
        0 <= d,
    ensures
        way_back(gens, d, at, d, p) <==> p == at,
{
    if p == at {
        assert(trail(gens, d, at, d, seq![at]));
    }
}

/// A node on the way back, before the generation of the node that the way
/// starts at, is stored as a parent of a node on the way back in the
/// generation behind it.
pub proof fn lemma_way_back_step<E: Evaluator>(
    gens: Seq<GenView<E>>,
    d: int,
    at: Index,
    e: int,
    p: Index,
) -> (c: Index)
    requires
        e < d,
        way_back(gens, d, at, e, p),
    ensures
        way_back(gens, d, at, e + 1, c),
        gens[e + 1].parents.contains_key(slot_of(c)),
        gens[e + 1].parents[slot_of(c)].contains(slot_of(p)),
{
    let path = choose|path: Seq<Index>| #[trigger] trail(gens, d, at, e, path) && path[0] == p;
    let rest = path.skip(1);
    assert forall|k: int| 0 <= k < d - (e + 1) implies #[trigger] linked(gens, e + 1, rest, k) by {
        assert(rest[k] == path[k + 1]);
        assert(rest[k + 1] == path[k + 2]);
        assert(linked(gens, e, path, k + 1));
    }
    assert(rest[d - (e + 1)] == path[d - e]);
    assert(trail(gens, d, at, e + 1, rest));
    assert(linked(gens, e, path, 0));
    assert(rest[0] == path[1]);
    path[1]
}

/// The way back is the same while the parents stored in the generations up
/// to that of the node are the same.
pub proof fn lemma_way_back_same<E: Evaluator>(
    gens: Seq<GenView<E>>,
    other: Seq<GenView<E>>,
    d: int,
    at: Index,
    e: int,
    p: Index,
)
    requires
        0 <= e <= d < gens.len(),
        d < other.len(),
        forall|k: int| 0 <= k <= d ==> (#[trigger] other[k]).parents == gens[k].parents,
        way_back(gens, d, at, e, p),
    ensures
        way_back(other, d, at, e, p),
{
    let path = choose|path: Seq<Index>| #[trigger] trail(gens, d, at, e, path) && path[0] == p;
    assert forall|k: int| 0 <= k < d - e implies #[trigger] linked(other, e, path, k) by {
        assert(linked(gens, e, path, k));
        assert(other[e + k + 1].parents == gens[e + k + 1].parents);
    }
    assert(trail(other, d, at, e, path));
}

/// A generation carries what it holds.
pub proof fn lemma_carries_self<E: Evaluator>(g: GenView<E>)
    ensures
        gen_carries(g, g),
{
    assert forall|i: Index| #[trigger] holds(g.nodes, i) && g.node(i).children is Some implies same_actions(
        g.children(i),
        g.children(i),
    ) by {
        lemma_same_actions_refl(g.children(i));
    }
}

/// Generations carry what they hold, and what generations added behind them
/// leave as it is.
pub proof fn lemma_carries_prefix<E: Evaluator>(after: Seq<GenView<E>>, before: Seq<GenView<E>>)
    requires
        after.len() >= before.len(),
        forall|d: int| 0 <= d < before.len() ==> after[d] == before[d],
    ensures
        carries(after, before),
{
    assert forall|d: int| 0 <= d < before.len() implies #[trigger] gen_carries(after[d], before[d]) by {
        lemma_carries_self(before[d]);
    }
}

/// What is carried over two steps is carried over both.
pub proof fn lemma_gen_carries_chain<E: Evaluator>(last: GenView<E>, mid: GenView<E>, first: GenView<E>)
    requires
        gen_carries(last, mid),
        gen_carries(mid, first),
    ensures
        gen_carries(last, first),
{
    assert forall|i: Index| #[trigger] holds(first.nodes, i) implies {
        &&& holds(last.nodes, i)
        &&& first.node(i).children is Some ==> last.node(i).children == first.node(i).children
            && same_actions(first.children(i), last.children(i))
        &&& first.parents.contains_key(slot_of(i)) ==> last.parents.contains_key(slot_of(i))
            && first.parents[slot_of(i)].is_prefix_of(last.parents[slot_of(i)])
    } by {
        assert(holds(mid.nodes, i));
        if first.node(i).children is Some {
            lemma_same_actions_trans(first.children(i), mid.children(i), last.children(i));
        }
        if first.parents.contains_key(slot_of(i)) {
            let a = first.parents[slot_of(i)];
            let b = mid.parents[slot_of(i)];
            let c = last.parents[slot_of(i)];
            assert(a.is_prefix_of(b) && b.is_prefix_of(c));
            assert(a =~= c.subrange(0, a.len() as int)) by {
                assert(b =~= c.subrange(0, b.len() as int));
                assert(a =~= b.subrange(0, a.len() as int));
            }
        }
    }
}

/// What is carried over two steps is carried over both.
pub proof fn lemma_carries_chain<E: Evaluator>(
    last: Seq<GenView<E>>,
    mid: Seq<GenView<E>>,
    first: Seq<GenView<E>>,
)
    requires
        carries(last, mid),
        carries(mid, first),
    ensures
        carries(last, first),
{
    assert forall|d: int| 0 <= d < first.len() implies #[trigger] gen_carries(last[d], first[d]) by {
        assert(gen_carries(last[d], mid[d]));
        assert(gen_carries(mid[d], first[d]));
        lemma_gen_carries_chain(last[d], mid[d], first[d]);
    }
}

/// A change of one generation that carries what it held carries the graph.
pub proof fn lemma_carries_update<E: Evaluator>(gens: Seq<GenView<E>>, d: int, g: GenView<E>)
    requires
        0 <= d < gens.len(),
        gen_carries(g, gens[d]),
    ensures
        carries(gens.update(d, g), gens),
{
    let after = gens.update(d, g);
    assert forall|e: int| 0 <= e < gens.len() implies #[trigger] gen_carries(after[e], gens[e]) by {
        if e != d {
            lemma_carries_self(gens[e]);
        }
    }
}

/// A generation carries what it held while its nodes keep their runs with
/// the actions in them, and their parents.
pub proof fn lemma_carries_same<E: Evaluator>(g: GenView<E>, n: GenView<E>)
    requires
        forall|i: Index|
            #![trigger holds(g.nodes, i)]
            holds(g.nodes, i) ==> holds(n.nodes, i) && (g.node(i).children is Some ==> n.node(i).children
                == g.node(i).children && n.children(i) == g.children(i)),
        forall|i: Index|
            #![trigger holds(g.nodes, i)]
            holds(g.nodes, i) && g.parents.contains_key(slot_of(i)) ==> n.parents.contains_key(
                slot_of(i),
            ) && g.parents[slot_of(i)].is_prefix_of(n.parents[slot_of(i)]),
    ensures
        gen_carries(n, g),
{
    assert forall|i: Index| #[trigger] holds(g.nodes, i) implies {
        &&& holds(n.nodes, i)
        &&& g.node(i).children is Some ==> n.node(i).children == g.node(i).children && same_actions(
            g.children(i),
            n.children(i),
        )
        &&& g.parents.contains_key(slot_of(i)) ==> n.parents.contains_key(slot_of(i))
            && g.parents[slot_of(i)].is_prefix_of(n.parents[slot_of(i)])
    } by {
        if g.node(i).children is Some {
            lemma_same_actions_refl(g.children(i));
        }
    }
}

/// Adding a node at a new place carries what a generation held.
pub proof fn lemma_carries_node<E: Evaluator>(g: GenView<E>, at: Index, key: Seq<u64>, node: Node<E>)
    requires
        at.shelf < g.nodes.len(),
        at.slot == g.nodes[at.shelf as int].len(),
    ensures
        gen_carries(g.with_node(at, key, node), g),
{
    let n = g.with_node(at, key, node);
    assert forall|i: Index|
        #![trigger holds(g.nodes, i)]
        holds(g.nodes, i) implies holds(n.nodes, i) && (g.node(i).children is Some ==> n.node(i).children
        == g.node(i).children && n.children(i) == g.children(i)) by {
        assert(n.node(i) == g.node(i));
    }
    assert forall|i: Index|
        #![trigger holds(g.nodes, i)]
        holds(g.nodes, i) && g.parents.contains_key(slot_of(i)) implies n.parents.contains_key(
        slot_of(i),
    ) && g.parents[slot_of(i)].is_prefix_of(n.parents[slot_of(i)]) by {
        assert(slot_of(i) != slot_of(at));
    }
    lemma_carries_same(g, n);
}

/// Adding a parent to a node and marking a leaf as dead carry what a
/// generation held.
pub proof fn lemma_carries_rest<E: Evaluator>(g: GenView<E>, at: Index, other: Index)
    ensures
        g.parents.contains_key(slot_of(at)) ==> gen_carries(g.with_parent(at, other), g),
        holds(g.nodes, at) ==> gen_carries(g.with_dead(at), g),
{
    if g.parents.contains_key(slot_of(at)) {
        let n = g.with_parent(at, other);
        assert forall|i: Index|
            #![trigger holds(g.nodes, i)]
            holds(g.nodes, i) && g.parents.contains_key(slot_of(i)) implies n.parents.contains_key(
            slot_of(i),
        ) && g.parents[slot_of(i)].is_prefix_of(n.parents[slot_of(i)]) by {
            let old_list = g.parents[slot_of(i)];
            if slot_of(i) == slot_of(at) {
                assert(old_list =~= old_list.push(slot_of(other)).subrange(0, old_list.len() as int));
            }
        }
        lemma_carries_same(g, n);
    }
    if holds(g.nodes, at) {
        let n = g.with_dead(at);
        assert forall|i: Index|
            #![trigger holds(g.nodes, i)]
            holds(g.nodes, i) implies holds(n.nodes, i) && (g.node(i).children is Some ==> n.node(
            i,
        ).children == g.node(i).children && n.children(i) == g.children(i)) by {
            assert(n.node(i).children == g.node(i).children);
        }
        lemma_carries_same(g, n);
    }
}

/// Giving a leaf a run of new actions as children carries what a generation
/// held.
pub proof fn lemma_carries_children<E: Evaluator>(
    g: GenView<E>,
    at: Index,
    range: IndexRange,
    items: Seq<Action<E>>,
)
    requires
        gen_ok(g, None),
        holds(g.nodes, at),
        g.node(at).children is None,
        range.shelf < g.actions.len(),
        range.start == g.actions[range.shelf as int].len(),
        range.end == range.start + items.len(),
    ensures
        gen_carries(g.with_children(at, range, items), g),
{
    reveal(gen_ok);
    let n = g.with_children(at, range, items);
    assert forall|i: Index|
        #![trigger holds(g.nodes, i)]
        holds(g.nodes, i) implies holds(n.nodes, i) && (g.node(i).children is Some ==> n.node(i).children
        == g.node(i).children && n.children(i) == g.children(i)) by {
        if g.node(i).children is Some {
            assert(i != at);
            assert(n.node(i) == g.node(i));
            assert(spans(g.actions, g.node(i).run()));
            assert(n.children(i) =~= g.children(i));
        }
    }
    lemma_carries_same(g, n);
}

/// Refreshing the children of a node carries what a generation held.
pub proof fn lemma_carries_run<E: Evaluator>(
    g: GenView<E>,
    next: GenView<E>,
    fresh: Option<Index>,
    at: Index,
    items: Seq<Action<E>>,
    from: Seq<int>,
    to: Seq<int>,
)
    requires
        gen_ok(g, fresh),
        holds(g.nodes, at),
        g.node(at).children is Some,
        refreshed(g.children(at), next, items, from, to),
    ensures
        gen_carries(g.with_run(g.node(at).run(), items), g),
{
    let range = g.node(at).run();
    let n = g.with_run(range, items);
    assert(g.nodes_sound() && g.runs_apart()) by {
        reveal(gen_ok);
    }
    assert(spans(g.actions, range));
    super::tree::lemma_run_frame(g, range, items);
    lemma_refreshed_same(g.children(at), next, items, from, to);
    assert forall|i: Index| #[trigger] holds(g.nodes, i) implies {
        &&& holds(n.nodes, i)
        &&& g.node(i).children is Some ==> n.node(i).children == g.node(i).children && same_actions(
            g.children(i),
            n.children(i),
        )
        &&& g.parents.contains_key(slot_of(i)) ==> n.parents.contains_key(slot_of(i))
            && g.parents[slot_of(i)].is_prefix_of(n.parents[slot_of(i)])
    } by {
        if g.node(i).children is Some {
            if i == at {
                assert(n.children(at) == items);
            } else {
                assert(spans(g.actions, g.node(i).run()));
                assert(holds(g.nodes, i) && holds(g.nodes, at));
                assert(n.children(i) == g.children(i));
                lemma_same_actions_refl(g.children(i));
            }
        }
    }
}

} // verus!
