//! Heap sort, and the heap it works on.

use super::{lemma_swapped_keeps_elements, sorts, swapped};
use crate::order::{lawful, le, lemma_total, lemma_transitive, less, lt};
use vstd::prelude::*;

verus! {

/// The slot above slot `i` in the heap's tree.
pub open spec fn parent(i: int) -> int {
    (i - 1) / 2
}

/// The element in slot `i` is not ordered before the one in the slot above it.
pub open spec fn ordered_at<E: Ord>(list: Seq<E>, i: int) -> bool {
    le(list[parent(i)], list[i])
}

/// The heap order holds between every slot from `start` on and its children.
pub open spec fn ordered_from<E: Ord>(list: Seq<E>, start: int) -> bool {
    forall|c: int| 1 <= c < list.len() && parent(c) >= start ==> #[trigger] ordered_at(list, c)
}

/// The child of slot `index` that sifting down looks at: the right one if
/// it is ordered strictly before the left one, else the left one.
pub open spec fn least_child<E: Ord>(list: Seq<E>, index: int) -> int {
    if 2 * index + 2 < list.len() && lt(list[2 * index + 2], list[2 * index + 1]) {
        2 * index + 2
    } else {
        2 * index + 1
    }
}

/// The slots after the element in slot `index` has been moved down for as
/// long as the child that sifting down looks at is ordered strictly before it.
pub open spec fn sifted_down<E: Ord>(list: Seq<E>, index: int) -> Seq<E>
    decreases list.len() - index,
{
    if 0 <= index && 2 * index + 1 < list.len() && lt(list[least_child(list, index)], list[index]) {
        sifted_down(swapped(list, least_child(list, index), index), least_child(list, index))
    } else {
        list
    }
}

/// The slots after the elements in the slots before `upto` have been
/// sifted down, last slot first.
pub open spec fn heapified<E: Ord>(list: Seq<E>, upto: int) -> Seq<E>
    decreases upto,
{
    if upto <= 0 {
        list
    } else {
        heapified(sifted_down(list, upto - 1), upto - 1)
    }
}

/// The element in slot `a` is not ordered after the one in slot `b`.
spec fn spans<E: Ord>(list: Seq<E>, a: int, b: int) -> bool {
    le(list[a], list[b])
}

/// The heap order holds between every slot from `start` on and its
/// children, but for the children of `hole`; and if `hole` lies beyond
/// `start`, the slot above it is not ordered after its children.
spec fn ordered_from_but<E: Ord>(list: Seq<E>, start: int, hole: int) -> bool {
    &&& forall|c: int|
        1 <= c < list.len() && parent(c) >= start && parent(c) != hole ==> #[trigger] ordered_at(
            list,
            c,
        )
    &&& hole > start ==> forall|c: int|
        1 <= c < list.len() && parent(c) == hole ==> #[trigger] spans(list, parent(hole), c)
}

/// One step of sifting down: after the hole has changed places with its
/// least child, that child's slot is the only one left whose children may
/// break the heap order.
proof fn lemma_sift_down_step<E: Ord>(list: Seq<E>, start: int, hole: int, child: int)
    requires
        lawful::<E>(),
        0 <= start <= hole,
        1 <= child < list.len(),
        parent(child) == hole,
        ordered_from_but(list, start, hole),
        lt(list[child], list[hole]),
        forall|c: int| 1 <= c < list.len() && parent(c) == hole ==> #[trigger] spans(list, child, c),
    ensures
        ordered_from_but(swapped(list, child, hole), start, child),
{
    let after = swapped(list, child, hole);
    lemma_total(list[child], list[hole]);
    assert forall|c: int|
        1 <= c < after.len() && parent(c) >= start && parent(c) != child implies #[trigger] ordered_at(
        after,
        c,
    ) by {
        if c == child {
        } else if parent(c) == hole {
            assert(spans(list, child, c));
        } else if c == hole {
            assert(spans(list, parent(hole), child));
        } else {
            assert(ordered_at(list, c));
        }
    }
    assert forall|c: int| 1 <= c < after.len() && parent(c) == child implies #[trigger] spans(
        after,
        parent(child),
        c,
    ) by {
        assert(ordered_at(list, c));
    }
}

/// Sifting down ends where no child of the hole is ordered before it.
proof fn lemma_sift_down_done<E: Ord>(list: Seq<E>, start: int, hole: int)
    requires
        lawful::<E>(),
        0 <= start <= hole,
        ordered_from_but(list, start, hole),
        forall|c: int| 1 <= c < list.len() && parent(c) == hole ==> #[trigger] spans(list, hole, c),
    ensures
        ordered_from(list, start),
{
    assert forall|c: int| 1 <= c < list.len() && parent(c) >= start implies #[trigger] ordered_at(
        list,
        c,
    ) by {
        if parent(c) != hole {
            assert(ordered_at(list, c));
        } else {
            assert(spans(list, hole, c));
        }
    }
}

/// In a heap the root is not ordered after any element.
proof fn lemma_root_is_least<E: Ord>(list: Seq<E>, i: int)
    requires
        lawful::<E>(),
        ordered_from(list, 0),
        0 <= i < list.len(),
    ensures
        le(list[0], list[i]),
    decreases i,
{
    if i == 0 {
        lemma_total(list[0], list[0]);
    } else {
        lemma_root_is_least(list, parent(i));
        assert(ordered_at(list, i));
        lemma_transitive(list[0], list[parent(i)], list[i]);
    }
}

/// Heap sort: the elements are made into a min-heap, from which they are
/// then taken least first.
pub fn heap_sort<E: Ord + Copy>(l: Vec<E>) -> (sorted_list: Vec<E>)
    requires
        lawful::<E>(),
    ensures
        sorts(l@, sorted_list@),
{
    let mut sorted_list: Vec<E> = Vec::with_capacity(l.len());
    let mut small_heap = SmallHeap::new(l);
    proof {
        broadcast use vstd::seq_lib::group_to_multiset_ensures;

        assert(sorted_list@ =~= Seq::<E>::empty());
        assert(sorted_list@.to_multiset().add(small_heap.elements().to_multiset())
            =~= small_heap.elements().to_multiset());
    }
    while !small_heap.is_empty()
        invariant
            lawful::<E>(),
            small_heap.wf(),
            sorted_list@.to_multiset().add(small_heap.elements().to_multiset()) == l@.to_multiset(),
            forall|a: int, b: int|
                0 <= a <= b < sorted_list@.len() ==> le(
                    #[trigger] sorted_list@[a],
                    #[trigger] sorted_list@[b],
                ),
            forall|a: int, b: int|
                0 <= a < sorted_list@.len() && 0 <= b < small_heap.elements().len() ==> le(
                    #[trigger] sorted_list@[a],
                    #[trigger] small_heap.elements()[b],
                ),
        decreases small_heap.elements().len(),
    {
        let ghost before = small_heap.elements();
        let ghost out = sorted_list@;
        let top: E = small_heap.pop_top();
        sorted_list.push(top);
        proof {
            broadcast use vstd::seq_lib::group_to_multiset_ensures;

            let rest = small_heap.elements();
            assert(sorted_list@.to_multiset().add(rest.to_multiset()) =~= out.to_multiset().add(
                before.to_multiset(),
            ));
            assert(before.to_multiset().count(top) > 0);
            lemma_total(top, top);
            assert forall|a: int, b: int|
                0 <= a < sorted_list@.len() && 0 <= b < rest.len() implies le(
                #[trigger] sorted_list@[a],
                #[trigger] rest[b],
            ) by {
                assert(rest.to_multiset().count(rest[b]) > 0);
                assert(before.to_multiset().count(rest[b]) > 0);
                assert(before.contains(rest[b]));
                let k = choose|k: int| 0 <= k < before.len() && before[k] == rest[b];
                if a < out.len() {
                    assert(sorted_list@[a] == out[a]);
                }
            }
            assert forall|a: int, b: int| 0 <= a <= b < sorted_list@.len() implies le(
                #[trigger] sorted_list@[a],
                #[trigger] sorted_list@[b],
            ) by {
                let k = choose|k: int| 0 <= k < before.len() && before[k] == top;
                if b < out.len() {
                    assert(sorted_list@[a] == out[a]);
                    assert(sorted_list@[b] == out[b]);
                } else if a < out.len() {
                    assert(sorted_list@[a] == out[a]);
                }
            }
        }
    }
    proof {
        broadcast use vstd::seq_lib::group_to_multiset_ensures;

        assert(small_heap.elements() =~= Seq::<E>::empty());
        assert(sorted_list@.to_multiset().add(small_heap.elements().to_multiset())
            =~= sorted_list@.to_multiset());
    }
    sorted_list
}

/// A binary min-heap over a vector.
pub struct SmallHeap<E: Ord + Copy> {
    list: Vec<E>,
}

impl<E: Ord + Copy> SmallHeap<E> {
    /// The heap's array, root first.
    pub closed spec fn elements(&self) -> Seq<E> {
        self.list@
    }

    /// The elements are in heap order.
    pub open spec fn wf(&self) -> bool {
        &&& lawful::<E>()
        &&& ordered_from(self.elements(), 0)
    }

    /// A heap of the elements of `list`.
    pub fn new(list: Vec<E>) -> (small_heap: SmallHeap<E>)
        requires
            lawful::<E>(),
        ensures
            small_heap.elements() == heapified(list@, list@.len() as int / 2),
            small_heap.wf(),
            small_heap.elements().to_multiset() == list@.to_multiset(),
    {
        let mut small_heap = SmallHeap { list };
        small_heap.make_heap();
        small_heap
    }

    /// Moves the element in slot `index` down while one of its children is
    /// ordered before it, each time changing places with the lesser child.
    ///
    /// The elements stay the same. Where the heap order held below `index`
    /// before the call, it holds from `index` on after it.
    pub fn sift_down(&mut self, index: usize)
        requires
            lawful::<E>(),
        ensures
            final(self).elements() == sifted_down(old(self).elements(), index as int),
            final(self).elements().len() == old(self).elements().len(),
            final(self).elements().to_multiset() == old(self).elements().to_multiset(),
            ordered_from(old(self).elements(), index + 1) ==> ordered_from(
                final(self).elements(),
                index as int,
            ),
    {
        let mut j: usize = index;
        let ghost start = index as int;
        let ghost goal = sifted_down(self.list@, index as int);
        let ghost heapable = ordered_from(self.list@, index + 1);
        proof {
            if heapable {
                assert forall|c: int|
                    1 <= c < self.list@.len() && parent(c) >= start && parent(c) != start implies #[trigger] ordered_at(
                    self.list@,
                    c,
                ) by {}
            }
        }
        while j < self.list.len() / 2
            invariant
                lawful::<E>(),
                0 <= start <= j,
                self.list@.len() == old(self).list@.len(),
                self.list@.to_multiset() == old(self).list@.to_multiset(),
                heapable ==> ordered_from_but(self.list@, start, j as int),
                sifted_down(self.list@, j as int) == goal,
            ensures
                heapable ==> ordered_from(self.list@, start),
                self.list@ == goal,
            decreases self.list@.len() - j,
        {
            let mut i: usize = 2 * j + 1;
            if i + 1 < self.list.len() && less(&self.list[i + 1], &self.list[i]) {
                i += 1;
            }
            proof {
                let list = self.list@;
                let left = 2 * j + 1;
                lemma_total(list[left], list[left]);
                if left + 1 < list.len() {
                    lemma_total(list[left + 1], list[left]);
                    lemma_total(list[left + 1], list[left + 1]);
                }
                assert forall|c: int| 1 <= c < list.len() && parent(c) == j implies #[trigger] spans(
                    list,
                    i as int,
                    c,
                ) by {
                    assert(c == left || c == left + 1);
                }
            }
            if less(&self.list[i], &self.list[j]) {
                proof {
                    if heapable {
                        lemma_sift_down_step(self.list@, start, j as int, i as int);
                    }
                    lemma_swapped_keeps_elements(self.list@, i as int, j as int);
                }
                self.list.as_mut_slice().swap(i, j);
                j = i;
            } else {
                proof {
                    let list = self.list@;
                    lemma_total(list[i as int], list[j as int]);
                    if heapable {
                        assert forall|c: int|
                            1 <= c < list.len() && parent(c) == j implies #[trigger] spans(
                            list,
                            j as int,
                            c,
                        ) by {
                            assert(spans(list, i as int, c));
                            lemma_transitive(list[j as int], list[i as int], list[c]);
                        }
                        lemma_sift_down_done(list, start, j as int);
                    }
                }
                break ;
            }
        }
        proof {
            if heapable && j >= self.list@.len() / 2 {
                lemma_sift_down_done(self.list@, start, j as int);
            }
        }
    }

    /// Puts the elements in heap order.
    fn make_heap(&mut self)
        requires
            lawful::<E>(),
        ensures
            final(self).elements() == heapified(
                old(self).elements(),
                old(self).elements().len() as int / 2,
            ),
            final(self).wf(),
            final(self).elements().to_multiset() == old(self).elements().to_multiset(),
    {
        let mut i: usize = self.list.len() / 2;
        let ghost goal = heapified(self.list@, self.list@.len() as int / 2);
        while i > 0
            invariant
                lawful::<E>(),
                i <= self.list@.len() / 2,
                self.list@.to_multiset() == old(self).list@.to_multiset(),
                ordered_from(self.list@, i as int),
                heapified(self.list@, i as int) == goal,
            decreases i,
        {
            i -= 1;
            self.sift_down(i);
        }
    }

    /// Removes and returns the least element. The heap must not be empty.
    pub fn pop_top(&mut self) -> (top: E)
        requires
            old(self).wf(),
            old(self).elements().len() > 0,
        ensures
            final(self).wf(),
            final(self).elements().len() == old(self).elements().len() - 1,
            forall|k: int|
                0 <= k < old(self).elements().len() ==> le(top, #[trigger] old(self).elements()[k]),
            top == old(self).elements()[0],
            final(self).elements() == if old(self).elements().len() == 1 {
                Seq::<E>::empty()
            } else {
                sifted_down(
                    old(self).elements().drop_last().update(0, old(self).elements().last()),
                    0,
                )
            },
            final(self).elements().to_multiset() == old(self).elements().to_multiset().remove(top),
    {
        broadcast use vstd::seq_lib::group_to_multiset_ensures;

        proof {
            assert forall|k: int| 0 <= k < self.list@.len() implies le(
                self.list@[0],
                #[trigger] self.list@[k],
            ) by {
                lemma_root_is_least(self.list@, k);
            }
            assert(self.list@[0] == self.list@[0]);
        }
        if self.list.len() == 1 {
            let top: E = self.list.pop().unwrap();
            proof {
                assert(self.list@ =~= Seq::<E>::empty());
                assert(old(self).list@ =~= Seq::<E>::empty().push(top));
                assert(self.list@.to_multiset() =~= old(self).list@.to_multiset().remove(top));
            }
            top
        } else {
            let top_element: E = self.list[0];
            let last: E = self.list.pop().unwrap();
            self.list[0] = last;
            proof {
                let before = old(self).list@;
                let shorter = before.drop_last();
                assert(before =~= shorter.push(last));
                assert(self.list@ =~= shorter.update(0, last));
                assert(self.list@.to_multiset() =~= before.to_multiset().remove(top_element));
                assert forall|c: int|
                    1 <= c < self.list@.len() && parent(c) >= 1 implies #[trigger] ordered_at(
                    self.list@,
                    c,
                ) by {
                    assert(ordered_at(before, c));
                }
            }
            self.sift_down(0);
            top_element
        }
    }

    /// Whether the heap holds no element.
    pub fn is_empty(&self) -> (r: bool)
        ensures
            r == (self.elements().len() == 0),
    {
        self.list.len() == 0
    }
}

} // verus!
