//! Arena storage: a rack of shelves, each a growable run of items whose
//! places never move.

use crate::chance::random_below;
use vstd::prelude::*;

verus! {

/// The place of an item in a rack.
#[derive(Debug, Clone, Copy, Hash, PartialEq, Eq, Structural)]
pub struct Index {
    pub shelf: usize,
    pub slot: usize,
}

/// A run of places within one shelf, from `start` up to but not including `end`.
#[derive(Debug, Clone, Copy, Hash, PartialEq, Eq, Structural)]
pub struct IndexRange {
    pub shelf: usize,
    pub start: usize,
    pub end: usize,
}

/// A shelf: items in the order in which they were added.
#[derive(Debug)]
pub struct Shelf<T> {
    data: Vec<T>,
}

/// A rack: a fixed number of shelves.
#[derive(Debug)]
pub struct Rack<T> {
    shelves: Vec<Shelf<T>>,
    /// The number of items on all shelves.
    count: usize,
}

/// The right to fill one shelf of a rack.
#[derive(Debug)]
pub struct ShelfRef {
    pub shelf: usize,
}

/// The number of items on the first `n` shelves.
pub open spec fn items_upto<T>(shelves: Seq<Seq<T>>, n: int) -> int
    decreases n,
{
    if n <= 0 {
        0
    } else {
        items_upto(shelves, n - 1) + shelves[n - 1].len()
    }
}

/// The number of items on all shelves.
pub open spec fn items_total<T>(shelves: Seq<Seq<T>>) -> int {
    items_upto(shelves, shelves.len() as int)
}

/// True if the place exists.
pub open spec fn holds<T>(shelves: Seq<Seq<T>>, index: Index) -> bool {
    index.shelf < shelves.len() && index.slot < shelves[index.shelf as int].len()
}

/// The item at a place.
pub open spec fn item_at<T>(shelves: Seq<Seq<T>>, index: Index) -> T {
    shelves[index.shelf as int][index.slot as int]
}

/// True if the run exists.
pub open spec fn spans<T>(shelves: Seq<Seq<T>>, range: IndexRange) -> bool {
    range.shelf < shelves.len() && range.start <= range.end <= shelves[range.shelf as int].len()
}

/// The items of a run.
pub open spec fn items_in<T>(shelves: Seq<Seq<T>>, range: IndexRange) -> Seq<T> {
    shelves[range.shelf as int].subrange(range.start as int, range.end as int)
}

/// The shelves after an item was added to one of them.
pub open spec fn with_item<T>(shelves: Seq<Seq<T>>, shelf: int, item: T) -> Seq<Seq<T>> {
    shelves.update(shelf, shelves[shelf].push(item))
}

/// The shelves after items were added to one of them.
pub open spec fn with_items<T>(shelves: Seq<Seq<T>>, shelf: int, items: Seq<T>) -> Seq<Seq<T>> {
    shelves.update(shelf, shelves[shelf] + items)
}

/// The shelves after the item at a place was replaced.
pub open spec fn with_change<T>(shelves: Seq<Seq<T>>, index: Index, item: T) -> Seq<Seq<T>> {
    shelves.update(
        index.shelf as int,
        shelves[index.shelf as int].update(index.slot as int, item),
    )
}

/// The count of items depends on the lengths of the shelves only.
pub proof fn lemma_items_upto_same<T>(a: Seq<Seq<T>>, b: Seq<Seq<T>>, n: int)
    requires
        0 <= n <= a.len(),
        a.len() == b.len(),
        forall|i: int| 0 <= i < n ==> (#[trigger] a[i]).len() == (#[trigger] b[i]).len(),
    ensures
        items_upto(a, n) == items_upto(b, n),
    decreases n,
{
    if n > 0 {
        lemma_items_upto_same(a, b, n - 1);
    }
}

/// Lengthening one shelf by `k` raises the count by `k`.
pub proof fn lemma_items_upto_grow<T>(a: Seq<Seq<T>>, b: Seq<Seq<T>>, shelf: int, k: int, n: int)
    requires
        0 <= n <= a.len(),
        a.len() == b.len(),
        0 <= shelf < a.len(),
        b[shelf].len() == a[shelf].len() + k,
        forall|i: int| 0 <= i < a.len() && i != shelf ==> (#[trigger] a[i]).len() == (
        #[trigger] b[i]).len(),
    ensures
        items_upto(b, n) == items_upto(a, n) + if shelf < n {
            k
        } else {
            0
        },
    decreases n,
{
    if n > 0 {
        lemma_items_upto_grow(a, b, shelf, k, n - 1);
    }
}

/// The count of items is not negative, and no shelf holds more than all.
pub proof fn lemma_items_upto_bounds<T>(a: Seq<Seq<T>>, shelf: int, n: int)
    requires
        0 <= n <= a.len(),
    ensures
        0 <= items_upto(a, n),
        0 <= shelf < n ==> a[shelf].len() <= items_upto(a, n),
    decreases n,
{
    if n > 0 {
        lemma_items_upto_bounds(a, shelf, n - 1);
    }
}

impl<T> Shelf<T> {
    /// The items of the shelf.
    pub closed spec fn view(&self) -> Seq<T> {
        self.data@
    }

    /// An empty shelf.
    pub fn new() -> (r: Self)
        ensures
            r@.len() == 0,
    {
        Shelf { data: Vec::new() }
    }

    /// Adds an item and returns its slot.
    pub fn allocate(&mut self, item: T) -> (slot: usize)
        ensures
            final(self)@ == old(self)@.push(item),
            slot == old(self)@.len(),
    {
        self.data.push(item);
        self.data.len() - 1
    }
}

impl<T> Rack<T> {
    /// The shelves with their items.
    pub closed spec fn view(&self) -> Seq<Seq<T>> {
        Seq::new(self.shelves@.len(), |i: int| self.shelves@[i]@)
    }

    /// True if the rack has counted its items right.
    pub closed spec fn well_formed(&self) -> bool {
        self.count as int == items_total(self@)
    }

    /// A rack with the given number of empty shelves.
    pub fn new(num_shelves: u32) -> (r: Self)
        ensures
            r.well_formed(),
            r@.len() == num_shelves,
            forall|i: int| 0 <= i < num_shelves ==> (#[trigger] r@[i]).len() == 0,
            items_total(r@) == 0,
    {
        let mut shelves: Vec<Shelf<T>> = Vec::new();
        let mut i: u32 = 0;
        while i < num_shelves
            invariant
                i <= num_shelves,
                shelves@.len() == i,
                forall|k: int| 0 <= k < i ==> (#[trigger] shelves@[k])@.len() == 0,
            decreases num_shelves - i,
        {
            shelves.push(Shelf::new());
            i = i + 1;
        }
        let r = Rack { shelves, count: 0 };
        proof {
            lemma_items_empty(r@, r@.len() as int);
        }
        r
    }

    /// Adds an item to a shelf picked at random and returns its place.
    pub fn allocate(&mut self, item: T) -> (index: Index)
        requires
            old(self).well_formed(),
            old(self)@.len() > 0,
            items_total(old(self)@) < usize::MAX,
        ensures
            final(self).well_formed(),
            index.shelf < old(self)@.len(),
            index.slot == old(self)@[index.shelf as int].len(),
            final(self)@ == with_item(old(self)@, index.shelf as int, item),
    {
        let shelf = random_below(self.shelves.len());
        self.append(&ShelfRef { shelf }, item)
    }

    /// Picks a shelf at random.
    pub fn rent_shelf(&self) -> (r: ShelfRef)
        requires
            self@.len() > 0,
        ensures
            r.shelf < self@.len(),
    {
        ShelfRef { shelf: random_below(self.shelves.len()) }
    }

    /// The number of items on a rented shelf.
    pub fn shelf_len(&self, shelf: &ShelfRef) -> (n: usize)
        requires
            shelf.shelf < self@.len(),
        ensures
            n == self@[shelf.shelf as int].len(),
    {
        self.shelves[shelf.shelf].data.len()
    }

    /// Adds an item to a rented shelf and returns its place.
    pub fn append(&mut self, shelf: &ShelfRef, item: T) -> (index: Index)
        requires
            old(self).well_formed(),
            shelf.shelf < old(self)@.len(),
            items_total(old(self)@) < usize::MAX,
        ensures
            final(self).well_formed(),
            index.shelf == shelf.shelf,
            index.slot == old(self)@[index.shelf as int].len(),
            final(self)@ == with_item(old(self)@, index.shelf as int, item),
    {
        let at = shelf.shelf;
        let slot = self.shelves[at].allocate(item);
        self.count = self.count + 1;
        proof {
            assert(final(self)@ =~= with_item(old(self)@, at as int, item));
            lemma_items_upto_grow(old(self)@, final(self)@, at as int, 1, old(self)@.len() as int);
        }
        Index { shelf: at, slot }
    }

    /// Adds a run of items to a rented shelf and returns its range.
    pub fn append_vec(&mut self, shelf: &ShelfRef, vec: Vec<T>) -> (range: IndexRange)
        requires
            old(self).well_formed(),
            shelf.shelf < old(self)@.len(),
            items_total(old(self)@) + vec@.len() <= usize::MAX,
        ensures
            final(self).well_formed(),
            range.shelf == shelf.shelf,
            range.start == old(self)@[range.shelf as int].len(),
            range.end == range.start + vec@.len(),
            final(self)@ == with_items(old(self)@, range.shelf as int, vec@),
    {
        let at = shelf.shelf;
        let len = vec.len();
        let ghost items = vec@;
        let mut vec = vec;
        let start = self.shelves[at].data.len();
        self.shelves[at].data.append(&mut vec);
        self.count = self.count + len;
        proof {
            assert(final(self)@ =~= with_items(old(self)@, at as int, items));
            lemma_items_upto_grow(
                old(self)@,
                final(self)@,
                at as int,
                len as int,
                old(self)@.len() as int,
            );
            lemma_items_upto_bounds(final(self)@, at as int, final(self)@.len() as int);
        }
        IndexRange { shelf: at, start, end: start + len }
    }

    /// The item at a place.
    pub fn get(&self, index: Index) -> (r: &T)
        requires
            holds(self@, index),
        ensures
            *r == item_at(self@, index),
    {
        &self.shelves[index.shelf].data[index.slot]
    }

    /// Replaces the item at a place.
    pub fn set(&mut self, index: Index, item: T)
        requires
            old(self).well_formed(),
            holds(old(self)@, index),
        ensures
            final(self).well_formed(),
            final(self)@ == with_change(old(self)@, index, item),
    {
        self.shelves[index.shelf].data[index.slot] = item;
        proof {
            assert(final(self)@ =~= with_change(old(self)@, index, item));
            lemma_items_upto_same(old(self)@, final(self)@, old(self)@.len() as int);
        }
    }

    /// The items of a run.
    pub fn get_range(&self, range: IndexRange) -> (r: &[T])
        requires
            spans(self@, range),
        ensures
            r@ == items_in(self@, range),
    {
        vstd::slice::slice_subrange(self.shelves[range.shelf].data.as_slice(), range.start, range.end)
    }

    /// The number of items on all shelves.
    pub fn len(&self) -> (n: usize)
        requires
            self.well_formed(),
        ensures
            n as int == items_total(self@),
    {
        self.count
    }
}

/// A rack of empty shelves holds nothing.
proof fn lemma_items_empty<T>(a: Seq<Seq<T>>, n: int)
    requires
        0 <= n <= a.len(),
        forall|i: int| 0 <= i < a.len() ==> (#[trigger] a[i]).len() == 0,
    ensures
        items_upto(a, n) == 0,
    decreases n,
{
    if n > 0 {
        lemma_items_empty(a, n - 1);
    }
}

} // verus!
