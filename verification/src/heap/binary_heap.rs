//! A binary min-heap over an array, with a map from each tracked identity to
//! the slot that holds it.

use super::{HeapElement, HeapMethod};
use crate::order::{lawful, le, lemma_total, lemma_transitive, less, lt};
use std::collections::HashMap;
use std::hash::Hash;
use vstd::prelude::*;
use vstd::std_specs::hash::obeys_key_model;

verus! {

/// The slot above slot `i` in the heap's tree.
pub open spec fn parent(i: int) -> int {
    (i - 1) / 2
}

/// Each slot's identity is mapped to that slot, and each mapped identity
/// sits in the slot it is mapped to.
pub open spec fn positions_agree<K: Ord, V: Hash + Eq + Copy>(
    slots: Seq<HeapElement<K, V>>,
    positions: Map<V, usize>,
) -> bool {
    &&& forall|i: int|
        0 <= i < slots.len() ==> positions.contains_key((#[trigger] slots[i]).track_id)
            && positions[slots[i].track_id] == i
    &&& forall|id: V| #[trigger]
        positions.contains_key(id) ==> positions[id] < slots.len() && slots[positions[id] as int].track_id
            == id
}

/// The key in slot `a` is not ordered after the key in slot `b`.
pub open spec fn spans<K: Ord, V: Hash + Eq + Copy>(
    slots: Seq<HeapElement<K, V>>,
    a: int,
    b: int,
) -> bool {
    le(slots[a].key, slots[b].key)
}

/// Slot `i` respects the heap order towards its parent.
pub open spec fn ordered_at<K: Ord, V: Hash + Eq + Copy>(
    slots: Seq<HeapElement<K, V>>,
    i: int,
) -> bool {
    spans(slots, parent(i), i)
}

/// The binary-min-heap property: no slot holds a key that is ordered before
/// its parent's.
pub open spec fn heap_ordered<K: Ord, V: Hash + Eq + Copy>(slots: Seq<HeapElement<K, V>>) -> bool {
    forall|i: int| 1 <= i < slots.len() ==> #[trigger] ordered_at(slots, i)
}

/// The identities of `positions`, each with the key found in its slot.
pub open spec fn entries_of<K: Ord, V: Hash + Eq + Copy>(
    slots: Seq<HeapElement<K, V>>,
    positions: Map<V, usize>,
) -> Map<V, K> {
    Map::new(|id: V| positions.contains_key(id), |id: V| slots[positions[id] as int].key)
}

/// The heap order holds everywhere but between `hole` and its parent, and
/// the parent of `hole` is not ordered after the children of `hole`.
spec fn ordered_but_above<K: Ord, V: Hash + Eq + Copy>(
    slots: Seq<HeapElement<K, V>>,
    hole: int,
) -> bool {
    &&& forall|i: int| 1 <= i < slots.len() && i != hole ==> #[trigger] ordered_at(slots, i)
    &&& hole >= 1 ==> forall|c: int|
        1 <= c < slots.len() && parent(c) == hole ==> #[trigger] spans(slots, parent(hole), c)
}

/// The heap order holds everywhere but between `hole` and its children, and
/// the parent of `hole` is not ordered after the children of `hole`.
spec fn ordered_but_below<K: Ord, V: Hash + Eq + Copy>(
    slots: Seq<HeapElement<K, V>>,
    hole: int,
) -> bool {
    &&& forall|i: int|
        1 <= i < slots.len() && parent(i) != hole ==> #[trigger] ordered_at(slots, i)
    &&& hole >= 1 ==> forall|c: int|
        1 <= c < slots.len() && parent(c) == hole ==> #[trigger] spans(slots, parent(hole), c)
}

/// `slots` with the contents of slots `a` and `b` exchanged.
pub open spec fn exchanged<K: Ord, V: Hash + Eq + Copy>(
    slots: Seq<HeapElement<K, V>>,
    a: int,
    b: int,
) -> Seq<HeapElement<K, V>> {
    slots.update(a, slots[b]).update(b, slots[a])
}

/// In a heap-ordered array the root is not ordered after any slot.
proof fn lemma_root_is_least<K: Ord, V: Hash + Eq + Copy>(slots: Seq<HeapElement<K, V>>, i: int)
    requires
        lawful::<K>(),
        heap_ordered(slots),
        0 <= i < slots.len(),
    ensures
        spans(slots, 0, i),
    decreases i,
{
    if i == 0 {
        lemma_total(slots[0].key, slots[0].key);
    } else {
        lemma_root_is_least(slots, parent(i));
        assert(ordered_at(slots, i));
        lemma_transitive(slots[0].key, slots[parent(i)].key, slots[i].key);
    }
}

/// One step of sifting up: after `hole` has changed places with its parent,
/// the parent's slot is the only one left that may break the heap order.
proof fn lemma_sift_up_step<K: Ord, V: Hash + Eq + Copy>(slots: Seq<HeapElement<K, V>>, hole: int)
    requires
        lawful::<K>(),
        1 <= hole < slots.len(),
        ordered_but_above(slots, hole),
        lt(slots[hole].key, slots[parent(hole)].key),
    ensures
        ordered_but_above(exchanged(slots, hole, parent(hole)), parent(hole)),
{
    let up = parent(hole);
    let after = exchanged(slots, hole, up);
    lemma_total(slots[hole].key, slots[up].key);
    assert forall|i: int| 1 <= i < after.len() && i != up implies #[trigger] ordered_at(
        after,
        i,
    ) by {
        if i == hole {
        } else if parent(i) == hole {
            assert(spans(slots, parent(hole), i));
        } else if parent(i) == up {
            assert(ordered_at(slots, i));
            lemma_transitive(slots[hole].key, slots[up].key, slots[i].key);
        } else {
            assert(ordered_at(slots, i));
        }
    }
    if up >= 1 {
        assert forall|c: int| 1 <= c < after.len() && parent(c) == up implies #[trigger] spans(
            after,
            parent(up),
            c,
        ) by {
            assert(ordered_at(slots, up));
            if c != hole {
                assert(ordered_at(slots, c));
                lemma_transitive(slots[parent(up)].key, slots[up].key, slots[c].key);
            }
        }
    }
}

/// Sifting up ends where the hole is not ordered before its parent.
proof fn lemma_sift_up_done<K: Ord, V: Hash + Eq + Copy>(slots: Seq<HeapElement<K, V>>, hole: int)
    requires
        lawful::<K>(),
        0 <= hole < slots.len(),
        ordered_but_above(slots, hole),
        hole >= 1 ==> !lt(slots[hole].key, slots[parent(hole)].key),
    ensures
        heap_ordered(slots),
{
    if hole >= 1 {
        lemma_total(slots[hole].key, slots[parent(hole)].key);
    }
    assert forall|i: int| 1 <= i < slots.len() implies #[trigger] ordered_at(slots, i) by {
        if i != hole {
            assert(ordered_at(slots, i));
        }
    }
}

/// One step of sifting down: after `hole` has changed places with its least
/// child, that child's slot is the only one left whose children may break
/// the heap order.
proof fn lemma_sift_down_step<K: Ord, V: Hash + Eq + Copy>(
    slots: Seq<HeapElement<K, V>>,
    hole: int,
    child: int,
)
    requires
        lawful::<K>(),
        0 <= hole,
        1 <= child < slots.len(),
        parent(child) == hole,
        ordered_but_below(slots, hole),
        lt(slots[child].key, slots[hole].key),
        forall|c: int|
            1 <= c < slots.len() && parent(c) == hole ==> #[trigger] spans(slots, child, c),
    ensures
        ordered_but_below(exchanged(slots, hole, child), child),
{
    let after = exchanged(slots, hole, child);
    lemma_total(slots[child].key, slots[hole].key);
    assert forall|i: int| 1 <= i < after.len() && parent(i) != child implies #[trigger] ordered_at(
        after,
        i,
    ) by {
        if i == child {
        } else if parent(i) == hole {
            assert(spans(slots, child, i));
        } else if i == hole {
            assert(spans(slots, parent(hole), child));
        } else {
            assert(ordered_at(slots, i));
        }
    }
    assert forall|c: int| 1 <= c < after.len() && parent(c) == child implies #[trigger] spans(
        after,
        parent(child),
        c,
    ) by {
        assert(ordered_at(slots, c));
    }
}

/// Sifting down ends where no child of the hole is ordered before it.
proof fn lemma_sift_down_done<K: Ord, V: Hash + Eq + Copy>(slots: Seq<HeapElement<K, V>>, hole: int)
    requires
        lawful::<K>(),
        0 <= hole,
        ordered_but_below(slots, hole),
        forall|c: int|
            1 <= c < slots.len() && parent(c) == hole ==> #[trigger] spans(slots, hole, c),
    ensures
        heap_ordered(slots),
{
    assert forall|i: int| 1 <= i < slots.len() implies #[trigger] ordered_at(slots, i) by {
        if parent(i) != hole {
            assert(ordered_at(slots, i));
        } else {
            assert(spans(slots, hole, i));
        }
    }
}

/// Lowering the key in one slot of a heap leaves only that slot out of order.
proof fn lemma_lowered_key<K: Ord, V: Hash + Eq + Copy>(
    slots: Seq<HeapElement<K, V>>,
    hole: int,
    element: HeapElement<K, V>,
)
    requires
        lawful::<K>(),
        0 <= hole < slots.len(),
        heap_ordered(slots),
        lt(element.key, slots[hole].key),
    ensures
        ordered_but_above(slots.update(hole, element), hole),
{
    let after = slots.update(hole, element);
    lemma_total(element.key, slots[hole].key);
    assert forall|i: int| 1 <= i < after.len() && i != hole implies #[trigger] ordered_at(
        after,
        i,
    ) by {
        assert(ordered_at(slots, i));
        if parent(i) == hole {
            lemma_transitive(element.key, slots[hole].key, slots[i].key);
        }
    }
    if hole >= 1 {
        assert forall|c: int| 1 <= c < after.len() && parent(c) == hole implies #[trigger] spans(
            after,
            parent(hole),
            c,
        ) by {
            assert(ordered_at(slots, hole));
            assert(ordered_at(slots, c));
            lemma_transitive(slots[parent(hole)].key, slots[hole].key, slots[c].key);
        }
    }
}

/// The slots after the element in slot `index` has been moved towards the
/// root for as long as its key is strictly less than its parent's.
pub open spec fn sifted_up<K: Ord, V: Hash + Eq + Copy>(
    slots: Seq<HeapElement<K, V>>,
    index: int,
) -> Seq<HeapElement<K, V>>
    decreases index,
{
    if 0 < index < slots.len() && lt(slots[index].key, slots[parent(index)].key) {
        sifted_up(exchanged(slots, index, parent(index)), parent(index))
    } else {
        slots
    }
}

/// The child of slot `index` with the lesser key: the left one if its key
/// is strictly less than the right one's, or if there is no right one.
pub open spec fn least_child<K: Ord, V: Hash + Eq + Copy>(
    slots: Seq<HeapElement<K, V>>,
    index: int,
) -> int {
    if 2 * index + 2 < slots.len() && !lt(slots[2 * index + 1].key, slots[2 * index + 2].key) {
        2 * index + 2
    } else {
        2 * index + 1
    }
}

/// The slots after the element in slot `index` has been moved away from the
/// root for as long as the key of its least child is strictly less than its own.
pub open spec fn sifted_down<K: Ord, V: Hash + Eq + Copy>(
    slots: Seq<HeapElement<K, V>>,
    index: int,
) -> Seq<HeapElement<K, V>>
    decreases slots.len() - index,
{
    if 0 <= index && 2 * index + 1 < slots.len() && lt(
        slots[least_child(slots, index)].key,
        slots[index].key,
    ) {
        sifted_down(exchanged(slots, index, least_child(slots, index)), least_child(slots, index))
    } else {
        slots
    }
}

/// The slots after a request to lower the key of `track_id` to `key`.
pub open spec fn lowered<K: Ord, V: Hash + Eq + Copy>(
    slots: Seq<HeapElement<K, V>>,
    positions: Map<V, usize>,
    key: K,
    track_id: V,
) -> Seq<HeapElement<K, V>> {
    if positions.contains_key(track_id) && lt(key, slots[positions[track_id] as int].key) {
        sifted_up(
            slots.update(positions[track_id] as int, HeapElement { key, track_id }),
            positions[track_id] as int,
        )
    } else {
        slots
    }
}

/// The slots after `element` has been pushed.
pub open spec fn pushed<K: Ord, V: Hash + Eq + Copy>(
    slots: Seq<HeapElement<K, V>>,
    positions: Map<V, usize>,
    element: HeapElement<K, V>,
) -> Seq<HeapElement<K, V>> {
    if positions.contains_key(element.track_id) {
        lowered(slots, positions, element.key, element.track_id)
    } else {
        sifted_up(slots.push(element), slots.len() as int)
    }
}

/// The slots after the root has been popped: the last element takes its
/// place and is moved down from there.
pub open spec fn popped<K: Ord, V: Hash + Eq + Copy>(slots: Seq<HeapElement<K, V>>) -> Seq<
    HeapElement<K, V>,
> {
    if slots.len() <= 1 {
        Seq::empty()
    } else {
        sifted_down(slots.update(0, slots.last()).drop_last(), 0)
    }
}

/// The positions that go with the slots: each identity found in a slot is
/// mapped to a slot that holds it.
pub open spec fn positions_of<K: Ord, V: Hash + Eq + Copy>(slots: Seq<HeapElement<K, V>>) -> Map<
    V,
    usize,
> {
    Map::new(
        |id: V| exists|i: int| 0 <= i < slots.len() && (#[trigger] slots[i]).track_id == id,
        |id: V| (choose|i: int| 0 <= i < slots.len() && (#[trigger] slots[i]).track_id == id) as usize,
    )
}

/// The slots settle the positions.
pub proof fn lemma_positions_of<K: Ord, V: Hash + Eq + Copy>(
    slots: Seq<HeapElement<K, V>>,
    positions: Map<V, usize>,
)
    requires
        positions_agree(slots, positions),
    ensures
        positions == positions_of(slots),
{
    assert forall|id: V| positions.contains_key(id) <==> positions_of(slots).contains_key(
        id,
    ) by {
        if positions.contains_key(id) {
            assert(slots[positions[id] as int].track_id == id);
        }
    }
    assert forall|id: V| positions.contains_key(id) implies positions[id] == positions_of(
        slots,
    )[id] by {
        assert(slots[positions[id] as int].track_id == id);
        let i = choose|i: int| 0 <= i < slots.len() && (#[trigger] slots[i]).track_id == id;
        assert(positions[slots[i].track_id] == i);
    }
    assert(positions =~= positions_of(slots));
}

/// A min-heap of `(key, identity)` elements in which the key of a tracked
/// identity can be lowered in place.
pub struct BinaryMinHeap<K: Ord, V: Hash + Eq + Copy> {
    data: Vec<HeapElement<K, V>>,
    map: HashMap<V, usize>,
}

impl<K: Ord, V: Hash + Eq + Copy> BinaryMinHeap<K, V> {
    /// The heap's array, root first.
    pub closed spec fn slots(&self) -> Seq<HeapElement<K, V>> {
        self.data@
    }

    /// The slot recorded for each tracked identity.
    pub closed spec fn positions(&self) -> Map<V, usize> {
        self.map@
    }

    /// The slots and the recorded positions agree, and the slots are in heap order.
    pub proof fn lemma_invariant(&self)
        requires
            self.wf(),
        ensures
            lawful::<K>(),
            positions_agree(self.slots(), self.positions()),
            heap_ordered(self.slots()),
            self.entries() == entries_of(self.slots(), self.positions()),
            self.positions() == positions_of(self.slots()),
            self.entries().dom().finite(),
            self.entries().dom().len() == self.slots().len(),
    {
        broadcast use vstd::std_specs::hash::group_hash_axioms;

        lemma_positions_of(self.data@, self.map@);

        let ids = self.data@.map_values(|e: HeapElement<K, V>| e.track_id);
        assert(ids.no_duplicates());
        assert(ids.to_set() =~= self.entries().dom()) by {
            assert forall|id: V| self.entries().dom().contains(id) implies ids.to_set().contains(
                id,
            ) by {
                assert(ids[self.map@[id] as int] == id);
            }
        }
        ids.unique_seq_to_set();
    }

    /// Exchanges two slots and records the new position of each identity.
    fn swap(&mut self, index1: usize, index2: usize)
        requires
            obeys_key_model::<V>(),
            positions_agree(old(self).data@, old(self).map@),
            index1 < old(self).data@.len(),
            index2 < old(self).data@.len(),
        ensures
            positions_agree(final(self).data@, final(self).map@),
            final(self).data@ == exchanged(old(self).data@, index1 as int, index2 as int),
            entries_of(final(self).data@, final(self).map@) == entries_of(
                old(self).data@,
                old(self).map@,
            ),
    {
        broadcast use vstd::std_specs::hash::group_hash_axioms;

        let track_id1: V = self.data[index1].track_id;
        let track_id2: V = self.data[index2].track_id;

        self.map.insert(track_id1, index2);
        self.map.insert(track_id2, index1);

        self.data.as_mut_slice().swap(index1, index2);

        proof {
            assert(self.data@ =~= exchanged(old(self).data@, index1 as int, index2 as int));
            assert(entries_of(self.data@, self.map@) =~= entries_of(old(self).data@, old(self).map@));
        }
    }

    /// Moves the element in slot `index` towards the root while its key is
    /// strictly less than its parent's.
    fn sift_up(&mut self, index: usize)
        requires
            lawful::<K>(),
            obeys_key_model::<V>(),
            positions_agree(old(self).data@, old(self).map@),
            index < old(self).data@.len(),
            ordered_but_above(old(self).data@, index as int),
        ensures
            final(self).data@ == sifted_up(old(self).data@, index as int),
            positions_agree(final(self).data@, final(self).map@),
            heap_ordered(final(self).data@),
            final(self).data@.len() == old(self).data@.len(),
            entries_of(final(self).data@, final(self).map@) == entries_of(
                old(self).data@,
                old(self).map@,
            ),
    {
        let ghost goal = sifted_up(self.data@, index as int);
        let mut index: usize = index;
        while index > 0
            invariant
                lawful::<K>(),
                obeys_key_model::<V>(),
                positions_agree(self.data@, self.map@),
                index < self.data@.len(),
                self.data@.len() == old(self).data@.len(),
                ordered_but_above(self.data@, index as int),
                entries_of(self.data@, self.map@) == entries_of(old(self).data@, old(self).map@),
                sifted_up(self.data@, index as int) == goal,
            ensures
                heap_ordered(self.data@),
                self.data@ == goal,
            decreases index,
        {
            let parent_element_index: usize = (index - 1) / 2;
            if less(&self.data[index].key, &self.data[parent_element_index].key) {
                proof {
                    lemma_sift_up_step(self.data@, index as int);
                }
                self.swap(index, parent_element_index);
                index = parent_element_index;
            } else {
                proof {
                    lemma_sift_up_done(self.data@, index as int);
                }
                break ;
            }
        }
        proof {
            if index == 0 {
                lemma_sift_up_done(self.data@, 0);
            }
        }
    }

    /// Moves the element in slot `index` away from the root while one of its
    /// children has a strictly lesser key, each time changing places with
    /// the lesser child.
    fn sift_down(&mut self, index: usize)
        requires
            lawful::<K>(),
            obeys_key_model::<V>(),
            positions_agree(old(self).data@, old(self).map@),
            ordered_but_below(old(self).data@, index as int),
        ensures
            final(self).data@ == sifted_down(old(self).data@, index as int),
            positions_agree(final(self).data@, final(self).map@),
            heap_ordered(final(self).data@),
            final(self).data@.len() == old(self).data@.len(),
            entries_of(final(self).data@, final(self).map@) == entries_of(
                old(self).data@,
                old(self).map@,
            ),
    {
        let ghost goal = sifted_down(self.data@, index as int);
        let mut index: usize = index;
        while index < self.data.len() / 2
            invariant
                lawful::<K>(),
                obeys_key_model::<V>(),
                positions_agree(self.data@, self.map@),
                self.data@.len() == old(self).data@.len(),
                ordered_but_below(self.data@, index as int),
                entries_of(self.data@, self.map@) == entries_of(old(self).data@, old(self).map@),
                sifted_down(self.data@, index as int) == goal,
            ensures
                heap_ordered(self.data@),
                self.data@ == goal,
            decreases self.data@.len() - index,
        {
            let left_child_index: usize = 2 * index + 1;
            let right_child_index: usize = left_child_index + 1;
            let mut least_child_index: usize = left_child_index;
            if right_child_index < self.data.len() {
                if !less(&self.data[left_child_index].key, &self.data[right_child_index].key) {
                    least_child_index = right_child_index;
                }
            }
            proof {
                let slots = self.data@;
                lemma_total(slots[left_child_index as int].key, slots[left_child_index as int].key);
                if right_child_index < slots.len() {
                    lemma_total(
                        slots[left_child_index as int].key,
                        slots[right_child_index as int].key,
                    );
                    lemma_total(
                        slots[right_child_index as int].key,
                        slots[right_child_index as int].key,
                    );
                }
                assert forall|c: int| 1 <= c < slots.len() && parent(c) == index implies (c
                    == left_child_index || c == right_child_index) by {}
                assert forall|c: int| 1 <= c < slots.len() && parent(c) == index implies #[trigger] spans(
                    slots,
                    least_child_index as int,
                    c,
                ) by {}
            }
            if less(&self.data[least_child_index].key, &self.data[index].key) {
                proof {
                    lemma_sift_down_step(self.data@, index as int, least_child_index as int);
                }
                self.swap(index, least_child_index);
                index = least_child_index;
            } else {
                proof {
                    let slots = self.data@;
                    lemma_total(slots[least_child_index as int].key, slots[index as int].key);
                    assert forall|c: int| 1 <= c < slots.len() && parent(c) == index implies #[trigger] spans(
                        slots,
                        index as int,
                        c,
                    ) by {
                        assert(spans(slots, least_child_index as int, c));
                        lemma_transitive(
                            slots[index as int].key,
                            slots[least_child_index as int].key,
                            slots[c].key,
                        );
                    }
                    lemma_sift_down_done(slots, index as int);
                }
                break ;
            }
        }
        proof {
            if index >= self.data@.len() / 2 {
                lemma_sift_down_done(self.data@, index as int);
            }
        }
    }
}

impl<K: Ord, V: Hash + Eq + Copy> HeapMethod<K, V> for BinaryMinHeap<K, V> {
    closed spec fn wf(&self) -> bool {
        &&& lawful::<K>()
        &&& obeys_key_model::<V>()
        &&& positions_agree(self.data@, self.map@)
        &&& heap_ordered(self.data@)
    }

    closed spec fn entries(&self) -> Map<V, K> {
        entries_of(self.data@, self.map@)
    }

    fn new() -> (heap: Self)
        ensures
            heap.slots() == Seq::<HeapElement<K, V>>::empty(),
    {
        let heap = BinaryMinHeap { data: Vec::new(), map: HashMap::new() };
        proof {
            broadcast use vstd::std_specs::hash::group_hash_axioms;

            assert(heap.entries() =~= Map::<V, K>::empty());
        }
        heap
    }

    fn with_capacity(capacity: usize) -> (heap: Self)
        ensures
            heap.slots() == Seq::<HeapElement<K, V>>::empty(),
    {
        let heap = BinaryMinHeap {
            data: Vec::with_capacity(capacity),
            map: HashMap::with_capacity(capacity),
        };
        proof {
            broadcast use vstd::std_specs::hash::group_hash_axioms;

            assert(heap.entries() =~= Map::<V, K>::empty());
        }
        heap
    }

    fn get_element(&self, track_id: V) -> (r: Option<&HeapElement<K, V>>) {
        broadcast use vstd::std_specs::hash::group_hash_axioms;

        match self.map.get(&track_id) {
            Some(index) => Some(&self.data[*index]),
            None => None,
        }
    }

    fn get_mut_element(&mut self, track_id: V) -> (r: Option<&mut HeapElement<K, V>>)
        ensures
            match r {
                Some(element) => {
                    &&& final(self).positions() == old(self).positions()
                    &&& final(self).slots() == old(self).slots().update(
                        old(self).positions()[track_id] as int,
                        *final(element),
                    )
                },
                None => final(self).positions() == old(self).positions() && final(self).slots()
                    == old(self).slots(),
            },
    {
        broadcast use vstd::std_specs::hash::group_hash_axioms;

        let found: Option<usize> = match self.map.get(&track_id) {
            Some(index) => Some(*index),
            None => None,
        };
        match found {
            Some(index) => {
                let ghost before = self.data@;
                let element: &mut HeapElement<K, V> = &mut self.data[index];
                proof {
                    assert(before.update(index as int, *element) =~= before);
                }
                Some(element)
            },
            None => None,
        }
    }

    fn pop(&mut self) -> (r: Option<HeapElement<K, V>>)
        ensures
            r matches Some(element) ==> old(self).slots().len() > 0 && element == old(
                self,
            ).slots()[0],
            r is Some ==> final(self).slots().len() == old(self).slots().len() - 1,
            r is None ==> old(self).slots().len() == 0,
            final(self).slots() == popped(old(self).slots()),
    {
        broadcast use vstd::std_specs::hash::group_hash_axioms;

        proof {
            assert forall|id: V| old(self).entries().contains_key(id) implies le(
                old(self).data@[0].key,
                #[trigger] old(self).entries()[id],
            ) by {
                lemma_root_is_least(old(self).data@, old(self).map@[id] as int);
            }
        }
        let size: usize = self.data.len();
        if size == 0 {
            proof {
                assert(old(self).entries() =~= Map::<V, K>::empty());
            }
            None
        } else if size == 1 {
            let pop_element = self.data.pop().unwrap();
            self.map.remove(&pop_element.track_id);
            proof {
                assert(self.map@ =~= Map::<V, usize>::empty()) by {
                    assert forall|id: V| !self.map@.contains_key(id) by {
                        if old(self).map@.contains_key(id) {
                            assert(old(self).data@[old(self).map@[id] as int].track_id == id);
                        }
                    }
                }
                assert(self.entries() =~= old(self).entries().remove(pop_element.track_id));
            }
            Some(pop_element)
        } else {
            let last_element_index: usize = size - 1;
            self.swap(0, last_element_index);
            let pop_element = self.data.pop().unwrap();
            self.map.remove(&pop_element.track_id);
            proof {
                let before = old(self).data@;
                let slots = self.data@;
                assert(slots =~= before.update(0, before[last_element_index as int]).take(
                    last_element_index as int,
                ));
                assert(positions_agree(slots, self.map@));
                assert forall|i: int| 1 <= i < slots.len() && parent(i) != 0 implies #[trigger] ordered_at(
                    slots,
                    i,
                ) by {
                    assert(ordered_at(before, i));
                }
                assert(self.entries() =~= old(self).entries().remove(pop_element.track_id));
            }
            self.sift_down(0);
            Some(pop_element)
        }
    }

    fn push(&mut self, element: HeapElement<K, V>)
        ensures
            final(self).slots() == pushed(old(self).slots(), old(self).positions(), element),
    {
        broadcast use vstd::std_specs::hash::group_hash_axioms;

        if self.map.contains_key(&element.track_id) {
            self.decrease_key(element.key, element.track_id);
        } else {
            let push_element_index: usize = self.data.len();
            let ghost pushed = element;
            self.map.insert(element.track_id, push_element_index);
            self.data.push(element);
            proof {
                let before = old(self).data@;
                let slots = self.data@;
                assert forall|i: int| 1 <= i < slots.len() && i != push_element_index implies #[trigger] ordered_at(
                    slots,
                    i,
                ) by {
                    assert(ordered_at(before, i));
                }
                assert(self.entries() =~= old(self).entries().insert(
                    pushed.track_id,
                    pushed.key,
                ));
            }
            self.sift_up(push_element_index);
        }
    }

    fn decrease_key(&mut self, key: K, track_id: V)
        ensures
            final(self).slots() == lowered(old(self).slots(), old(self).positions(), key, track_id),
            !(old(self).entries().contains_key(track_id) && lt(key, old(self).entries()[track_id]))
                ==> final(self).slots() == old(self).slots() && final(self).positions() == old(
                self,
            ).positions(),
    {
        broadcast use vstd::std_specs::hash::group_hash_axioms;

        let found: Option<usize> = match self.map.get(&track_id) {
            Some(index) => Some(*index),
            None => None,
        };
        if let Some(old_element_index) = found {
            if less(&key, &self.data[old_element_index].key) {
                let ghost lowered = HeapElement { key, track_id };
                proof {
                    lemma_lowered_key(self.data@, old_element_index as int, lowered);
                }
                self.data[old_element_index].reset_key(key);
                proof {
                    assert(self.data@ =~= old(self).data@.update(old_element_index as int, lowered));
                    assert(self.entries() =~= old(self).entries().insert(track_id, lowered.key));
                }
                self.sift_up(old_element_index);
            }
        }
    }
}

} // verus!
