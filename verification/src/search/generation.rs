//! One layer of the search: the states that stand a fixed number of pieces
//! behind the root.

use super::maps::{
    lookup_entries, lookup_get, lookup_insert, lookup_new, parent_entries, parents_add,
    parents_begin, parents_new, parents_of, LookupMap, ParentMap, Slot,
};
use super::node::{least_score, weight_of, Action, ChildData, Node, SelectResult};
use super::state::State;
use super::storage::{holds, item_at, items_in, items_total, spans, Index, IndexRange, Rack};
use crate::chance::{weight_sum, weighted_pick};
use crate::eval::{Accumulator, Evaluator};
use vstd::prelude::*;

verus! {

/// The number of shelves of each rack of a generation.
pub const SHELVES: u32 = 4096;

/// The largest number of children among which a choice is made.
pub const MAX_CHILDREN: usize = 0x8000_0000;

/// A generation: its nodes, the actions that lead from them to the next
/// generation, the map from state keys to nodes, and the parents of each node
/// in the generation before.
pub struct Generation<E: Evaluator> {
    nodes_rack: Rack<Node<E>>,
    actions_rack: Rack<Action<E>>,
    lookup: LookupMap,
    parents_lookup: ParentMap,
}

/// What a generation holds.
pub struct GenView<E: Evaluator> {
    /// The nodes, shelf by shelf.
    pub nodes: Seq<Seq<Node<E>>>,
    /// The actions, shelf by shelf.
    pub actions: Seq<Seq<Action<E>>>,
    /// The place of the node of each state key.
    pub keys: Map<Seq<u64>, Slot>,
    /// The places of the parents of each node.
    pub parents: Map<Slot, Seq<Slot>>,
}

/// The place of a node as a pair.
pub open spec fn slot_of(i: Index) -> Slot {
    (i.shelf, i.slot)
}

/// The place that a pair stands for.
pub open spec fn index_of(s: Slot) -> Index {
    Index { shelf: s.0, slot: s.1 }
}

impl<E: Evaluator> GenView<E> {
    /// The generation after a node was added at a place under a key.
    pub open spec fn with_node(self, index: Index, key: Seq<u64>, node: Node<E>) -> GenView<E> {
        GenView {
            nodes: super::storage::with_item(self.nodes, index.shelf as int, node),
            actions: self.actions,
            keys: self.keys.insert(key, slot_of(index)),
            parents: self.parents.insert(slot_of(index), Seq::empty()),
        }
    }

    /// The generation after a parent was added to a node.
    pub open spec fn with_parent(self, child: Index, parent: Index) -> GenView<E> {
        GenView {
            nodes: self.nodes,
            actions: self.actions,
            keys: self.keys,
            parents: self.parents.insert(
                slot_of(child),
                self.parents[slot_of(child)].push(slot_of(parent)),
            ),
        }
    }

    /// The generation after a node was given a run of new actions as children.
    pub open spec fn with_children(self, at: Index, range: IndexRange, actions: Seq<Action<E>>) -> GenView<
        E,
    > {
        GenView {
            nodes: super::storage::with_change(
                self.nodes,
                at,
                Node {
                    children: Some(ChildData(range)),
                    value: self.node(at).value,
                    dead: self.node(at).dead,
                },
            ),
            actions: super::storage::with_items(self.actions, range.shelf as int, actions),
            keys: self.keys,
            parents: self.parents,
        }
    }

    /// The generation after a node was marked as dead.
    pub open spec fn with_dead(self, at: Index) -> GenView<E> {
        GenView {
            nodes: super::storage::with_change(
                self.nodes,
                at,
                Node { children: self.node(at).children, value: self.node(at).value, dead: true },
            ),
            actions: self.actions,
            keys: self.keys,
            parents: self.parents,
        }
    }

    /// The generation after an action was replaced.
    pub open spec fn with_action(self, at: Index, action: Action<E>) -> GenView<E> {
        GenView {
            nodes: self.nodes,
            actions: super::storage::with_change(self.actions, at, action),
            keys: self.keys,
            parents: self.parents,
        }
    }

    /// The generation after the actions of a run were replaced.
    #[verifier::opaque]
    pub open spec fn with_run(self, range: IndexRange, items: Seq<Action<E>>) -> GenView<E> {
        GenView {
            nodes: self.nodes,
            actions: self.actions.update(
                range.shelf as int,
                self.actions[range.shelf as int].take(range.start as int) + items
                    + self.actions[range.shelf as int].skip(range.end as int),
            ),
            keys: self.keys,
            parents: self.parents,
        }
    }

    /// True if the generation holds nothing: no node, no action, no key and
    /// no parents.
    pub open spec fn vacant(self) -> bool {
        &&& forall|i: Index| !holds(self.nodes, i)
        &&& forall|i: Index| !holds(self.actions, i)
        &&& self.keys == super::maps::no_entries()
        &&& self.parents == super::maps::no_parents()
    }

    /// The node at a place.
    pub open spec fn node(self, i: Index) -> Node<E> {
        item_at(self.nodes, i)
    }

    /// The action at a place.
    pub open spec fn action(self, i: Index) -> Action<E> {
        item_at(self.actions, i)
    }

    /// The actions that lead away from the node at a place.
    pub open spec fn children(self, i: Index) -> Seq<Action<E>> {
        items_in(self.actions, self.node(i).run())
    }

    /// True if the map from keys leads to nodes, and to each node once.
    pub open spec fn keys_sound(self) -> bool {
        &&& forall|k: Seq<u64>| #[trigger]
            self.keys.contains_key(k) ==> holds(self.nodes, index_of(self.keys[k]))
        &&& forall|k1: Seq<u64>, k2: Seq<u64>|
            #![trigger self.keys[k1], self.keys[k2]]
            self.keys.contains_key(k1) && self.keys.contains_key(k2) && self.keys[k1]
                == self.keys[k2] ==> k1 == k2
    }

    /// True if every node is the node of a key and has an entry of parents.
    pub open spec fn nodes_known(self) -> bool {
        forall|i: Index| #[trigger]
            holds(self.nodes, i) ==> self.parents.contains_key(slot_of(i)) && exists|k: Seq<u64>|
                self.keys.contains_key(k) && #[trigger] self.keys[k] == slot_of(i)
    }

    /// True if the children of every node are a run of actions that exists,
    /// a dead node has none, and the score of every node is that of a state
    /// by itself.
    pub open spec fn nodes_sound(self) -> bool {
        forall|i: Index| #[trigger]
            holds(self.nodes, i) ==> {
                &&& self.node(i).value.grounded()
                &&& self.node(i).children is Some ==> spans(self.actions, self.node(i).run())
                    && !self.node(i).dead
            }
    }

    /// True if the runs of two nodes do not overlap.
    pub open spec fn runs_apart(self) -> bool {
        forall|i: Index, j: Index|
            #![trigger holds(self.nodes, i), holds(self.nodes, j)]
            holds(self.nodes, i) && holds(self.nodes, j) && i != j && self.node(i).children is Some
                && self.node(j).children is Some ==> {
                let a = self.node(i).run();
                let b = self.node(j).run();
                a.shelf != b.shelf || a.end <= b.start || b.end <= a.start
            }
    }

    /// True if the score of every action can be compared.
    pub open spec fn scores_sound(self) -> bool {
        forall|i: Index| #[trigger] holds(self.actions, i) ==> self.action(i).acc.scorable()
    }

    /// True if the children of every node but `fresh` stand best first.
    pub open spec fn runs_sorted(self, fresh: Option<Index>) -> bool {
        forall|i: Index| #[trigger]
            holds(self.nodes, i) && self.node(i).children is Some && fresh != Some(i)
                ==> super::node::best_first(self.children(i))
    }

    /// True if no node has children and there are no actions.
    pub open spec fn childless(self) -> bool {
        &&& forall|i: Index| #[trigger] holds(self.nodes, i) ==> self.node(i).children is None
        &&& forall|i: Index| !holds(self.actions, i)
    }

    /// True if the action at `a` belongs to the node `fresh`.
    pub open spec fn in_run_of(self, fresh: Option<Index>, a: Index) -> bool {
        match fresh {
            Some(f) => holds(self.nodes, f) && self.node(f).children is Some && a.shelf
                == self.node(f).run().shelf && self.node(f).run().start <= a.slot < self.node(
                f,
            ).run().end,
            None => false,
        }
    }
}

impl<E: Evaluator> Generation<E> {
    /// What the generation holds.
    pub closed spec fn view(&self) -> GenView<E> {
        GenView {
            nodes: self.nodes_rack@,
            actions: self.actions_rack@,
            keys: lookup_entries(self.lookup),
            parents: parent_entries(self.parents_lookup),
        }
    }

    /// True if the racks have counted their items right and have shelves.
    pub closed spec fn racks_sound(&self) -> bool {
        &&& self.nodes_rack.well_formed()
        &&& self.actions_rack.well_formed()
        &&& self.nodes_rack@.len() > 0
        &&& self.actions_rack@.len() > 0
    }

    /// An empty generation.
    pub fn new() -> (r: Self)
        ensures
            r.racks_sound(),
            r@.keys == super::maps::no_entries(),
            r@.parents == super::maps::no_parents(),
            items_total(r@.nodes) == 0,
            items_total(r@.actions) == 0,
            forall|i: Index| !holds(r@.nodes, i),
            forall|i: Index| !holds(r@.actions, i),
    {
        let r = Generation {
            nodes_rack: Rack::new(SHELVES),
            actions_rack: Rack::new(SHELVES),
            lookup: lookup_new(),
            parents_lookup: parents_new(),
        };
        assert forall|i: Index| !holds(r@.nodes, i) by {
            if i.shelf < r@.nodes.len() {
                assert(r@.nodes[i.shelf as int].len() == 0);
            }
        }
        assert forall|i: Index| !holds(r@.actions, i) by {
            if i.shelf < r@.actions.len() {
                assert(r@.actions[i.shelf as int].len() == 0);
            }
        }
        r
    }

    /// The place of the node of a state, if the generation holds one.
    pub fn find_node_index(&self, state: &State) -> (r: Option<Index>)
        ensures
            r == (if self@.keys.contains_key(state.key_seq()) {
                Some(index_of(self@.keys[state.key_seq()]))
            } else {
                None
            }),
    {
        let key = state.key();
        match lookup_get(&self.lookup, &key) {
            Some(slot) => Some(Index { shelf: slot.0, slot: slot.1 }),
            None => None,
        }
    }

    /// The node at a place.
    pub fn node(&self, index: Index) -> (r: Node<E>)
        requires
            holds(self@.nodes, index),
        ensures
            r == self@.node(index),
    {
        *self.nodes_rack.get(index)
    }

    /// The actions of a run.
    pub fn actions(&self, range: IndexRange) -> (r: &[Action<E>])
        requires
            spans(self@.actions, range),
        ensures
            r@ == items_in(self@.actions, range),
    {
        self.actions_rack.get_range(range)
    }

    /// The number of nodes.
    pub fn node_count(&self) -> (n: usize)
        requires
            self.racks_sound(),
        ensures
            n as int == items_total(self@.nodes),
    {
        self.nodes_rack.len()
    }

    /// The number of actions.
    pub fn action_count(&self) -> (n: usize)
        requires
            self.racks_sound(),
        ensures
            n as int == items_total(self@.actions),
    {
        self.actions_rack.len()
    }

    /// The action at a place.
    pub fn action(&self, index: Index) -> (r: Action<E>)
        requires
            holds(self@.actions, index),
        ensures
            r == self@.action(index),
    {
        *self.actions_rack.get(index)
    }

    /// The places of the parents stored for a node.
    pub fn parents(&self, child: Index) -> (r: Vec<Slot>)
        ensures
            r@ == (if self@.parents.contains_key(slot_of(child)) {
                self@.parents[slot_of(child)]
            } else {
                Seq::empty()
            }),
    {
        match parents_of(&self.parents_lookup, (child.shelf, child.slot)) {
            Some(stored) => stored,
            None => Vec::new(),
        }
    }

    /// Adds a node for a state that has none, without parents.
    pub fn add_node(&mut self, state: &State, node: Node<E>) -> (index: Index)
        requires
            old(self).racks_sound(),
            !old(self)@.keys.contains_key(state.key_seq()),
            items_total(old(self)@.nodes) < usize::MAX,
        ensures
            final(self).racks_sound(),
            index.shelf < old(self)@.nodes.len(),
            index.slot == old(self)@.nodes[index.shelf as int].len(),
            final(self)@ == old(self)@.with_node(index, state.key_seq(), node),
    {
        let shelf = self.nodes_rack.rent_shelf();
        let index = self.nodes_rack.append(&shelf, node);
        parents_begin(&mut self.parents_lookup, (index.shelf, index.slot));
        lookup_insert(&mut self.lookup, state.key(), (index.shelf, index.slot));
        index
    }

    /// Adds a parent to the parents of a node.
    pub fn add_parent(&mut self, child: Index, parent: Index)
        requires
            old(self)@.parents.contains_key(slot_of(child)),
        ensures
            final(self).racks_sound() == old(self).racks_sound(),
            final(self)@ == old(self)@.with_parent(child, parent),
    {
        parents_add(
            &mut self.parents_lookup,
            (child.shelf, child.slot),
            (parent.shelf, parent.slot),
        );
    }

    /// Gives a leaf its children: adds the actions as one run and stores the
    /// run on the node.
    pub fn add_actions(&mut self, at: Index, actions: Vec<Action<E>>) -> (range: IndexRange)
        requires
            old(self).racks_sound(),
            holds(old(self)@.nodes, at),
            items_total(old(self)@.actions) + actions@.len() <= usize::MAX,
        ensures
            final(self).racks_sound(),
            range.shelf < old(self)@.actions.len(),
            range.start == old(self)@.actions[range.shelf as int].len(),
            range.end == range.start + actions@.len(),
            final(self)@ == old(self)@.with_children(at, range, actions@),
    {
        let shelf = self.actions_rack.rent_shelf();
        let range = self.actions_rack.append_vec(&shelf, actions);
        let node = *self.nodes_rack.get(at);
        self.nodes_rack.set(
            at,
            Node { children: Some(ChildData(range)), value: node.value, dead: node.dead },
        );
        range
    }

    /// Marks a node as dead.
    pub fn mark_dead(&mut self, at: Index)
        requires
            old(self).racks_sound(),
            holds(old(self)@.nodes, at),
        ensures
            final(self).racks_sound(),
            final(self)@ == old(self)@.with_dead(at),
    {
        let node = *self.nodes_rack.get(at);
        self.nodes_rack.set(at, Node { children: node.children, value: node.value, dead: true });
    }

    /// Replaces the action at a place.
    pub fn set_action(&mut self, at: Index, action: Action<E>)
        requires
            old(self).racks_sound(),
            holds(old(self)@.actions, at),
        ensures
            final(self).racks_sound(),
            final(self)@ == old(self)@.with_action(at, action),
    {
        self.actions_rack.set(at, action);
    }

    /// Replaces the actions of a run.
    #[verifier::rlimit(50)]
    pub fn put_run(&mut self, range: IndexRange, items: &Vec<Action<E>>)
        requires
            old(self).racks_sound(),
            spans(old(self)@.actions, range),
            items@.len() == range.end - range.start,
        ensures
            final(self).racks_sound(),
            final(self)@ == old(self)@.with_run(range, items@),
    {
        let ghost before = self@;
        let ghost shelf = before.actions[range.shelf as int];
        let mut k: usize = 0;
        proof {
            assert(shelf.take(range.start as int) + items@.take(0) + shelf.skip(range.start as int)
                =~= shelf);
            assert(before.actions.update(range.shelf as int, shelf) =~= before.actions);
        }
        while k < items.len()
            invariant
                k <= items@.len(),
                items@.len() == range.end - range.start,
                spans(before.actions, range),
                shelf == before.actions[range.shelf as int],
                self.racks_sound(),
                self@.nodes == before.nodes,
                self@.keys == before.keys,
                self@.parents == before.parents,
                self@.actions == before.actions.update(
                    range.shelf as int,
                    shelf.take(range.start as int) + items@.take(k as int) + shelf.skip(
                        range.start + k,
                    ),
                ),
            decreases items@.len() - k,
        {
            let at = Index { shelf: range.shelf, slot: range.start + k };
            let ghost mid = self@;
            self.set_action(at, items[k]);
            proof {
                let want = before.actions.update(
                    range.shelf as int,
                    shelf.take(range.start as int) + items@.take(k + 1) + shelf.skip(
                        range.start + k + 1,
                    ),
                );
                let row = shelf.take(range.start as int) + items@.take(k as int) + shelf.skip(
                    range.start + k,
                );
                assert(mid.actions[range.shelf as int] == row);
                assert(row.update(at.slot as int, items@[k as int]) =~= shelf.take(
                    range.start as int,
                ) + items@.take(k + 1) + shelf.skip(range.start + k + 1));
                assert(self@.actions =~= want);
            }
            k = k + 1;
        }
        proof {
            reveal(GenView::with_run);
            assert(items@.take(items@.len() as int) =~= items@);
            assert(final(self)@.actions =~= before.with_run(range, items@).actions);
        }
    }

    /// Chooses a child of the node of a state.
    ///
    /// Fails if the generation has no node for the state. Asks for an
    /// expansion if the node has no children. Otherwise draws a child with a
    /// chance in proportion to its weight, which is its score shifted so that
    /// the least score among the siblings weighs one. The choice also fails if
    /// the node has an empty run of children or more of them than a choice
    /// is made among.
    #[verifier::rlimit(50)]
    pub fn select(&self, state: &State) -> (r: SelectResult<E>)
        requires
            self@.keys_sound(),
            self@.nodes_sound(),
            self@.scores_sound(),
        ensures
            match r {
                SelectResult::Failed => self.select_fails(state),
                SelectResult::Expand => self@.keys.contains_key(state.key_seq()) && self@.node(
                    index_of(self@.keys[state.key_seq()]),
                ).children is None,
                SelectResult::Chosen(a) => {
                    &&& self@.keys.contains_key(state.key_seq())
                    &&& self@.node(index_of(self@.keys[state.key_seq()])).children is Some
                    &&& !self.select_fails(state)
                    &&& exists|j: int|
                        0 <= j < self@.children(index_of(self@.keys[state.key_seq()])).len() && (
                        #[trigger] self@.children(index_of(self@.keys[state.key_seq()]))[j]) == a
                },
            },
    {
        let index = match self.find_node_index(state) {
            Some(i) => i,
            None => {
                return SelectResult::Failed;
            },
        };
        let node = self.node(index);
        let range = match node.children {
            Some(c) => c.0,
            None => {
                return SelectResult::Expand;
            },
        };
        let count = range.end - range.start;
        if count == 0 || count > MAX_CHILDREN {
            return SelectResult::Failed;
        }
        let actions = self.actions(range);
        proof {
            assert forall|i: int| 0 <= i < actions@.len() implies (
            #[trigger] actions@[i]).acc.scorable() by {
                let at = Index { shelf: range.shelf, slot: (range.start + i) as usize };
                assert(holds(self@.actions, at));
                assert(self@.action(at) == actions@[i]);
            }
        }
        let weights = selection_weights(actions);
        let pick = weighted_pick(&weights);
        proof {
            assert(index == index_of(self@.keys[state.key_seq()]));
            assert(self@.node(index).run() == range);
            assert(self@.children(index) == actions@);
            assert(self@.children(index)[pick as int] == actions@[pick as int]);
        }
        SelectResult::Chosen(actions[pick])
    }

    /// True if no choice is made for the state: the generation has no node
    /// for it, or the node has an empty run of children or too many of them.
    pub open spec fn select_fails(&self, state: &State) -> bool {
        ||| !self@.keys.contains_key(state.key_seq())
        ||| {
            let node = self@.node(index_of(self@.keys[state.key_seq()]));
            node.children is Some && (node.run().end - node.run().start == 0 || node.run().end
                - node.run().start > MAX_CHILDREN)
        }
    }
}

/// The weights of the siblings in a choice: each score, shifted so that the
/// least score weighs one.
pub fn selection_weights<E: Evaluator>(actions: &[Action<E>]) -> (r: Vec<u64>)
    requires
        0 < actions@.len() <= MAX_CHILDREN,
        forall|i: int| 0 <= i < actions@.len() ==> (#[trigger] actions@[i]).acc.scorable(),
    ensures
        r@.len() == actions@.len(),
        forall|i: int| 0 <= i < r@.len() ==> (#[trigger] r@[i]) as int == weight_of(actions@, i),
        forall|i: int| 0 <= i < r@.len() ==> 1 <= #[trigger] r@[i] <= 0x1_0000_0000,
        0 < weight_sum(r@) <= u64::MAX,
{
    let n = actions.len();
    let mut min: i32 = i32::MAX;
    let mut i: usize = 0;
    while i < n
        invariant
            i <= n,
            n == actions@.len(),
            min as int == least_score(actions@, i as int),
            forall|k: int| 0 <= k < i ==> min <= (#[trigger] actions@[k]).score(),
            forall|k: int| 0 <= k < actions@.len() ==> (#[trigger] actions@[k]).acc.scorable(),
        decreases n - i,
    {
        let s = actions[i].acc.select_score();
        if s < min {
            min = s;
        }
        i = i + 1;
    }
    let mut weights: Vec<u64> = Vec::new();
    let mut i: usize = 0;
    while i < n
        invariant
            i <= n,
            n == actions@.len(),
            n <= MAX_CHILDREN,
            min as int == least_score(actions@, n as int),
            forall|k: int| 0 <= k < n ==> min <= (#[trigger] actions@[k]).score(),
            forall|k: int| 0 <= k < actions@.len() ==> (#[trigger] actions@[k]).acc.scorable(),
            weights@.len() == i,
            forall|k: int| 0 <= k < i ==> (#[trigger] weights@[k]) as int == weight_of(actions@, k),
            forall|k: int| 0 <= k < i ==> 1 <= #[trigger] weights@[k] <= 0x1_0000_0000,
            i <= weight_sum(weights@) <= i * 0x1_0000_0000,
        decreases n - i,
    {
        let s = actions[i].acc.select_score();
        let w: u64 = (s as i64 - min as i64 + 1) as u64;
        let ghost before = weights@;
        weights.push(w);
        proof {
            assert(weights@.drop_last() =~= before);
        }
        i = i + 1;
    }
    weights
}

} // verus!
