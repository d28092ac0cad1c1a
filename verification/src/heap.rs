//! Priority queues whose elements can be found again by an identity.

use crate::order::{lawful, le, lt};
use std::cmp::Ordering;
use std::hash::Hash;
use vstd::prelude::*;
use vstd::std_specs::cmp::{PartialEqSpec, PartialEqSpecImpl, PartialOrdSpec, PartialOrdSpecImpl};
use vstd::std_specs::hash::obeys_key_model;

pub mod binary_heap;

pub use self::binary_heap::BinaryMinHeap;

verus! {

/// A key together with the identity under which a heap tracks it.
#[derive(Debug)]
pub struct HeapElement<K: Ord, V: Hash + Eq + Copy> {
    pub key: K,
    pub track_id: V,
}

impl<K: Ord, V: Hash + Eq + Copy> HeapElement<K, V> {
    /// The element with the given key and identity.
    pub fn new(key: K, track_id: V) -> (element: HeapElement<K, V>)
        ensures
            element.key == key,
            element.track_id == track_id,
    {
        HeapElement { key, track_id }
    }

    /// Gives the element another key.
    pub fn reset_key(&mut self, key: K)
        ensures
            final(self).key == key,
            final(self).track_id == old(self).track_id,
    {
        self.key = key;
    }
}

/// Two elements are equal when their keys are; the identity plays no part.
impl<K: Ord, V: Hash + Eq + Copy> PartialEq for HeapElement<K, V> {
    fn eq(&self, other: &Self) -> (r: bool) {
        self.key == other.key
    }
}

impl<K: Ord, V: Hash + Eq + Copy> PartialEqSpecImpl for HeapElement<K, V> {
    open spec fn obeys_eq_spec() -> bool {
        K::obeys_eq_spec()
    }

    open spec fn eq_spec(&self, other: &Self) -> bool {
        self.key.eq_spec(&other.key)
    }
}

impl<K: Ord, V: Hash + Eq + Copy> Eq for HeapElement<K, V> {

}

/// Elements are ordered as their keys are.
impl<K: Ord, V: Hash + Eq + Copy> PartialOrd for HeapElement<K, V> {
    fn partial_cmp(&self, other: &Self) -> (r: Option<Ordering>) {
        self.key.partial_cmp(&other.key)
    }
}

impl<K: Ord, V: Hash + Eq + Copy> PartialOrdSpecImpl for HeapElement<K, V> {
    open spec fn obeys_partial_cmp_spec() -> bool {
        K::obeys_partial_cmp_spec()
    }

    open spec fn partial_cmp_spec(&self, other: &Self) -> Option<Ordering> {
        self.key.partial_cmp_spec(&other.key)
    }
}

/// `element` is tracked in `entries` and no tracked key is ordered before its key.
pub open spec fn is_least_entry<K: Ord, V: Hash + Eq + Copy>(
    entries: Map<V, K>,
    element: HeapElement<K, V>,
) -> bool {
    &&& entries.contains_key(element.track_id)
    &&& entries[element.track_id] == element.key
    &&& forall|id: V| entries.contains_key(id) ==> le(element.key, #[trigger] entries[id])
}

/// The entries after a request to lower the key of `track_id` to `key`: the
/// request takes effect only when the identity is tracked and `key` is
/// strictly less than its present key.
pub open spec fn entries_after_decrease<K: Ord, V: Hash + Eq + Copy>(
    entries: Map<V, K>,
    key: K,
    track_id: V,
) -> Map<V, K> {
    if entries.contains_key(track_id) && lt(key, entries[track_id]) {
        entries.insert(track_id, key)
    } else {
        entries
    }
}

/// The entries after a push: a new identity is added with its key, and a
/// tracked one is treated as a request to lower its key.
pub open spec fn entries_after_push<K: Ord, V: Hash + Eq + Copy>(
    entries: Map<V, K>,
    element: HeapElement<K, V>,
) -> Map<V, K> {
    if entries.contains_key(element.track_id) {
        entries_after_decrease(entries, element.key, element.track_id)
    } else {
        entries.insert(element.track_id, element.key)
    }
}

/// A min-heap that tracks each element by an identity.
///
/// The heap is described by `entries`: the identities it tracks, each with
/// its present key. An identity is tracked at most once.
pub trait HeapMethod<K: Ord, V: Hash + Eq + Copy>: Sized {
    /// The representation invariant of the implementation.
    spec fn wf(&self) -> bool;

    /// The tracked identities with their keys.
    spec fn entries(&self) -> Map<V, K>;

    /// An empty heap.
    fn new() -> (heap: Self)
        requires
            lawful::<K>(),
            obeys_key_model::<V>(),
        ensures
            heap.wf(),
            heap.entries() == Map::<V, K>::empty(),
    ;

    /// An empty heap with room set aside for `capacity` elements.
    fn with_capacity(capacity: usize) -> (heap: Self)
        requires
            lawful::<K>(),
            obeys_key_model::<V>(),
        ensures
            heap.wf(),
            heap.entries() == Map::<V, K>::empty(),
    ;

    /// The element tracked as `track_id`, if there is one.
    fn get_element(&self, track_id: V) -> (r: Option<&HeapElement<K, V>>)
        requires
            self.wf(),
        ensures
            match r {
                Some(element) => {
                    &&& self.entries().contains_key(track_id)
                    &&& element.track_id == track_id
                    &&& element.key == self.entries()[track_id]
                },
                None => !self.entries().contains_key(track_id),
            },
    ;

    /// The element tracked as `track_id`, if there is one, for the caller
    /// to change.
    ///
    /// The heap does not look at the element again when the caller is done
    /// with it. It is in order afterwards if the element was left as it
    /// was; a caller that changes the key, or the identity, has to see to
    /// the order and to the identities itself.
    fn get_mut_element(&mut self, track_id: V) -> (r: Option<&mut HeapElement<K, V>>)
        requires
            old(self).wf(),
        ensures
            match r {
                Some(element) => {
                    &&& old(self).entries().contains_key(track_id)
                    &&& element.track_id == track_id
                    &&& element.key == old(self).entries()[track_id]
                    &&& *final(element) == *element ==> final(self).wf() && final(self).entries()
                        =~= old(self).entries()
                },
                None => {
                    &&& !old(self).entries().contains_key(track_id)
                    &&& final(self).wf()
                    &&& final(self).entries() == old(self).entries()
                },
            },
    ;

    /// Adds `element`; if its identity is tracked already, the call is a
    /// request to lower that identity's key instead.
    fn push(&mut self, element: HeapElement<K, V>)
        requires
            old(self).wf(),
        ensures
            final(self).wf(),
            final(self).entries() == entries_after_push(old(self).entries(), element),
    ;

    /// Removes and returns an element with the least key, or `None` when
    /// the heap is empty.
    fn pop(&mut self) -> (r: Option<HeapElement<K, V>>)
        requires
            old(self).wf(),
        ensures
            final(self).wf(),
            match r {
                Some(element) => {
                    &&& is_least_entry(old(self).entries(), element)
                    &&& final(self).entries() == old(self).entries().remove(element.track_id)
                },
                None => {
                    &&& old(self).entries() == Map::<V, K>::empty()
                    &&& final(self).entries() == old(self).entries()
                },
            },
    ;

    /// Lowers the key of `track_id` to `key`. Nothing happens when the
    /// identity is not tracked, or when `key` is not strictly less than its
    /// present key.
    fn decrease_key(&mut self, key: K, track_id: V)
        requires
            old(self).wf(),
        ensures
            final(self).wf(),
            final(self).entries() == entries_after_decrease(old(self).entries(), key, track_id),
    ;
}

/// `later` is what is left of `earlier` after some identities have left it.
spec fn shrunk_from<K: Ord, V: Hash + Eq + Copy>(earlier: Map<V, K>, later: Map<V, K>) -> bool {
    forall|id: V| #[trigger]
        later.contains_key(id) ==> earlier.contains_key(id) && earlier[id] == later[id]
}

/// What is tracked after some pops was tracked before them, under the
/// same key.
proof fn lemma_pops_shrink<K: Ord, V: Hash + Eq + Copy>(
    states: Seq<Map<V, K>>,
    popped: Seq<HeapElement<K, V>>,
    i: int,
    j: int,
)
    requires
        states.len() == popped.len() + 1,
        forall|k: int|
            0 <= k < popped.len() ==> is_least_entry(#[trigger] states[k], popped[k]) && states[k
                + 1] == states[k].remove(popped[k].track_id),
        0 <= i <= j <= popped.len(),
    ensures
        shrunk_from(states[i], states[j]),
    decreases j - i,
{
    if i < j {
        lemma_pops_shrink(states, popped, i, j - 1);
        assert(is_least_entry(states[j - 1], popped[j - 1]));
    }
}

/// Elements popped one after the other, with no other operation in
/// between, come out in ascending order of their keys. `states[k]` stands
/// for the entries before the pop that gave `popped[k]`.
pub proof fn lemma_pops_ascend<K: Ord, V: Hash + Eq + Copy>(
    states: Seq<Map<V, K>>,
    popped: Seq<HeapElement<K, V>>,
)
    requires
        states.len() == popped.len() + 1,
        forall|k: int|
            0 <= k < popped.len() ==> is_least_entry(#[trigger] states[k], popped[k]) && states[k
                + 1] == states[k].remove(popped[k].track_id),
    ensures
        forall|i: int, j: int|
            0 <= i <= j < popped.len() ==> le((#[trigger] popped[i]).key, (#[trigger] popped[j]).key),
{
    assert forall|i: int, j: int| 0 <= i <= j < popped.len() implies le(
        (#[trigger] popped[i]).key,
        (#[trigger] popped[j]).key,
    ) by {
        lemma_pops_shrink(states, popped, i, j);
        assert(is_least_entry(states[i], popped[i]));
        assert(is_least_entry(states[j], popped[j]));
        assert(states[j].contains_key(popped[j].track_id));
        assert(states[i].contains_key(popped[j].track_id));
        assert(states[i][popped[j].track_id] == popped[j].key);
    }
}

} // verus!
