//! The open set: entries `(f, t, slot)` in a double-ended priority queue, so that the
//! best entry (least `f`, then least `t`) is taken first and, when the set is bounded,
//! the worst one is evicted.

use vstd::prelude::*;
use vstd::multiset::Multiset;
use min_max_heap::MinMaxHeap;

verus! {

/// An entry of the open set: priority `f`, tie-break `t`, and the slot of its node.
pub type Entry = (usize, usize, usize);

#[verifier::external_type_specification]
#[verifier::external_body]
#[verifier::reject_recursive_types(T)]
pub struct ExMinMaxHeap<T>(MinMaxHeap<T>);

/// The entries that a heap holds.
pub uninterp spec fn heap_items(h: MinMaxHeap<(usize, usize, usize)>) -> Multiset<(usize, usize, usize)>;

/// The order of tuples that std documents: lexicographic.
pub open spec fn entry_le(a: Entry, b: Entry) -> bool {
    a.0 < b.0 || (a.0 == b.0 && (a.1 < b.1 || (a.1 == b.1 && a.2 <= b.2)))
}

/// Relies on `MinMaxHeap::new`: an empty heap.
#[verifier::external_body]
fn heap_new() -> (r: MinMaxHeap<Entry>)
    ensures
        heap_items(r) == Multiset::<Entry>::empty(),
{
    MinMaxHeap::new()
}

/// Relies on `MinMaxHeap::len`: the number of entries.
#[verifier::external_body]
fn heap_len(h: &MinMaxHeap<Entry>) -> (r: usize)
    ensures
        r == heap_items(*h).len(),
{
    h.len()
}

/// Relies on `MinMaxHeap::push`: the entry is added.
#[verifier::external_body]
fn heap_push(h: &mut MinMaxHeap<Entry>, e: Entry)
    ensures
        heap_items(*final(h)) == heap_items(*old(h)).insert(e),
{
    h.push(e)
}

/// Relies on `MinMaxHeap::pop_min`: a least entry leaves, `None` when empty.
#[verifier::external_body]
fn heap_pop_min(h: &mut MinMaxHeap<Entry>) -> (r: Option<Entry>)
    ensures
        match r {
            None => heap_items(*old(h)).len() == 0 && heap_items(*final(h)) == heap_items(*old(h)),
            Some(e) => {
                &&& heap_items(*old(h)).contains(e)
                &&& heap_items(*final(h)) == heap_items(*old(h)).remove(e)
                &&& forall|x: Entry| #[trigger] heap_items(*old(h)).contains(x) ==> entry_le(e, x)
            },
        },
{
    h.pop_min()
}

/// Relies on `MinMaxHeap::push_pop_max`: of the entries and `e`, a greatest is returned
/// and the others stay.
#[verifier::external_body]
fn heap_push_pop_max(h: &mut MinMaxHeap<Entry>, e: Entry) -> (r: Entry)
    ensures
        heap_items(*old(h)).insert(e).contains(r),
        heap_items(*final(h)) == heap_items(*old(h)).insert(e).remove(r),
        forall|x: Entry| #[trigger] heap_items(*old(h)).insert(e).contains(x) ==> entry_le(x, r),
{
    h.push_pop_max(e)
}

/// A priority queue of entries, bounded to `capacity` entries when that is not zero.
pub struct OpenSet {
    heap: MinMaxHeap<Entry>,
    capacity: usize,
}

impl OpenSet {
    /// The entries held.
    pub closed spec fn items(&self) -> Multiset<Entry> {
        heap_items(self.heap)
    }

    /// The bound on the number of entries; 0 for none.
    pub closed spec fn bound(&self) -> nat {
        self.capacity as nat
    }

    /// An empty open set holding at most `capacity` entries, or any number if it is 0.
    pub fn new(capacity: usize) -> (r: OpenSet)
        ensures
            r.items() == Multiset::<Entry>::empty(),
            r.bound() == capacity,
    {
        OpenSet { heap: heap_new(), capacity }
    }

    /// Number of entries.
    pub fn len(&self) -> (r: usize)
        ensures
            r == self.items().len(),
    {
        heap_len(&self.heap)
    }

    /// Adds `to_insert`. When the set is bounded and full, the greatest of its entries
    /// and `to_insert` is evicted and returned instead: an entry better than the current
    /// worst is never the one dropped.
    pub fn insert(&mut self, to_insert: Entry) -> (evicted: Option<Entry>)
        ensures
            final(self).bound() == old(self).bound(),
            old(self).bound() == 0 || old(self).items().len() < old(self).bound() ==> {
                &&& evicted is None
                &&& final(self).items() == old(self).items().insert(to_insert)
            },
            old(self).bound() != 0 && old(self).items().len() >= old(self).bound() ==> {
                &&& evicted matches Some(w) && {
                    &&& old(self).items().insert(to_insert).contains(w)
                    &&& final(self).items() == old(self).items().insert(to_insert).remove(w)
                    &&& forall|x: Entry| #[trigger]
                        old(self).items().insert(to_insert).contains(x) ==> entry_le(x, w)
                }
            },
    {
        if self.capacity == 0 || heap_len(&self.heap) < self.capacity {
            heap_push(&mut self.heap, to_insert);
            None
        } else {
            Some(heap_push_pop_max(&mut self.heap, to_insert))
        }
    }

    /// Takes out a least entry, `None` when the set is empty.
    pub fn pop_best(&mut self) -> (r: Option<Entry>)
        ensures
            final(self).bound() == old(self).bound(),
            match r {
                None => old(self).items().len() == 0 && final(self).items() == old(self).items(),
                Some(e) => {
                    &&& old(self).items().contains(e)
                    &&& final(self).items() == old(self).items().remove(e)
                    &&& forall|x: Entry| #[trigger] old(self).items().contains(x) ==> entry_le(e, x)
                },
            },
    {
        heap_pop_min(&mut self.heap)
    }
}

} // verus!
