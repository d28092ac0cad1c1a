//! Quicksort.

use super::{lemma_swapped_keeps_elements, sorts, swapped};
use crate::order::{lawful, le, lemma_total, lemma_transitive, less, lt};
use vstd::prelude::*;

verus! {

/// Every element before position `p` is ordered before, or level with,
/// every element from `p` on.
spec fn split<E: Ord>(s: Seq<E>, p: int) -> bool {
    forall|a: int, b: int| 0 <= a < p <= b < s.len() ==> le(#[trigger] s[a], #[trigger] s[b])
}

/// Positions `p - 1` and `p` both lie in the segment.
spec fn covers(segment: (usize, usize), p: int) -> bool {
    segment.0 < p <= segment.1
}

/// Some waiting segment covers positions `p - 1` and `p`.
spec fn covered(stack: Seq<(usize, usize)>, p: int) -> bool {
    exists|k: int| 0 <= k < stack.len() && #[trigger] covers(stack[k], p)
}

/// The segment lies in the sequence, and what lies before it, in it and
/// after it is in that order.
spec fn fenced<E: Ord>(s: Seq<E>, segment: (usize, usize)) -> bool {
    &&& segment.0 <= segment.1 + 1
    &&& segment.1 < s.len()
    &&& segment.0 > 0 ==> split(s, segment.0 as int)
    &&& segment.1 + 1 < s.len() ==> split(s, segment.1 + 1)
}

/// The two segments have no position in common.
spec fn apart(a: (usize, usize), b: (usize, usize)) -> bool {
    a.1 < b.0 || b.1 < a.0
}

/// The segments yet to be sorted are fenced and apart from each other, and
/// wherever the sequence is not yet split, a segment is waiting.
spec fn waiting_segments<E: Ord>(s: Seq<E>, stack: Seq<(usize, usize)>) -> bool {
    &&& forall|k: int| 0 <= k < stack.len() ==> fenced(s, #[trigger] stack[k])
    &&& forall|k1: int, k2: int|
        0 <= k1 < k2 < stack.len() ==> apart(#[trigger] stack[k1], #[trigger] stack[k2])
    &&& forall|p: int| 1 <= p < s.len() ==> #[trigger] split(s, p) || covered(stack, p)
}

/// `after` differs from `before` only between `start` and `end`, and every
/// element it has there is one that `before` had there.
spec fn rearranged_within<E>(before: Seq<E>, after: Seq<E>, start: int, end: int) -> bool {
    &&& after.len() == before.len()
    &&& forall|k: int| 0 <= k < before.len() && !(start <= k <= end) ==> #[trigger] after[k] == before[k]
    &&& forall|k: int| start <= k <= end ==> within(before, #[trigger] after[k], start, end)
}

/// `x` is one of the elements of `s` between `start` and `end`.
spec fn within<E>(s: Seq<E>, x: E, start: int, end: int) -> bool {
    exists|k: int| start <= k <= end && #[trigger] s[k] == x
}

/// Rearranging a stretch of the sequence keeps the sequence split at every
/// position outside the stretch.
proof fn lemma_split_kept<E: Ord>(before: Seq<E>, after: Seq<E>, start: int, end: int, p: int)
    requires
        0 <= start <= end < before.len(),
        rearranged_within(before, after, start, end),
        split(before, p),
        p <= start || p > end,
    ensures
        split(after, p),
{
    assert forall|a: int, b: int| 0 <= a < p <= b < after.len() implies le(
        #[trigger] after[a],
        #[trigger] after[b],
    ) by {
        let a0 = if start <= a <= end {
            assert(within(before, after[a], start, end));
            choose|k: int| start <= k <= end && #[trigger] before[k] == after[a]
        } else {
            a
        };
        let b0 = if start <= b <= end {
            assert(within(before, after[b], start, end));
            choose|k: int| start <= k <= end && #[trigger] before[k] == after[b]
        } else {
            b
        };
        assert(le(before[a0], before[b0]));
    }
}

/// The segments that wait once a segment has been partitioned about the
/// element at `pivot`: the part before the pivot, unless the pivot is the
/// first element of the sequence, and the part after it, unless it is empty.
spec fn after_partition(
    rest: Seq<(usize, usize)>,
    start: usize,
    end: usize,
    pivot: usize,
) -> Seq<(usize, usize)> {
    let with_left = if pivot > 0 {
        rest.push((start, (pivot - 1) as usize))
    } else {
        rest
    };
    if pivot < end {
        with_left.push(((pivot + 1) as usize, end))
    } else {
        with_left
    }
}

/// After a segment has been partitioned about the element at `pivot`, the
/// two parts on either side of it are what is left to sort of it.
proof fn lemma_partitioned<E: Ord>(
    before: Seq<E>,
    after: Seq<E>,
    rest: Seq<(usize, usize)>,
    start: usize,
    end: usize,
    pivot: usize,
)
    requires
        lawful::<E>(),
        waiting_segments(before, rest.push((start, end))),
        start < end,
        start <= pivot <= end,
        rearranged_within(before, after, start as int, end as int),
        forall|a: int| start <= a < pivot ==> le(#[trigger] after[a], after[pivot as int]),
        forall|b: int| pivot < b <= end ==> le(after[pivot as int], #[trigger] after[b]),
    ensures
        waiting_segments(after, after_partition(rest, start, end, pivot)),
{
    let whole = rest.push((start, end));
    let stack = after_partition(rest, start, end, pivot);
    assert(whole[rest.len() as int] == (start, end));
    assert(fenced(before, whole[rest.len() as int]));
    // The pivot separates what lies before it from what lies after it.
    assert forall|p: int| (p == pivot && pivot > start) || (p == pivot + 1 && pivot < end) implies split(
        after,
        p,
    ) by {
        assert forall|a: int, b: int| 0 <= a < p <= b < after.len() implies le(
            #[trigger] after[a],
            #[trigger] after[b],
        ) by {
            lemma_total(after[pivot as int], after[pivot as int]);
            if a < start {
                lemma_split_kept(before, after, start as int, end as int, start as int);
            } else if b > end {
                lemma_split_kept(before, after, start as int, end as int, end + 1);
            } else {
                lemma_transitive(after[a], after[pivot as int], after[b]);
            }
        }
    }
    assert(start > 0 ==> split(after, start as int)) by {
        if start > 0 {
            lemma_split_kept(before, after, start as int, end as int, start as int);
        }
    }
    assert(end + 1 < after.len() ==> split(after, end + 1)) by {
        if end + 1 < after.len() {
            lemma_split_kept(before, after, start as int, end as int, end + 1);
        }
    }
    assert forall|k: int| 0 <= k < rest.len() implies fenced(after, #[trigger] rest[k]) && apart(
        rest[k],
        (start, end),
    ) by {
        assert(whole[k] == rest[k]);
        assert(fenced(before, whole[k]));
        assert(apart(whole[k], whole[rest.len() as int]));
        if rest[k].0 > 0 {
            lemma_split_kept(before, after, start as int, end as int, rest[k].0 as int);
        }
        if rest[k].1 + 1 < before.len() {
            lemma_split_kept(before, after, start as int, end as int, rest[k].1 + 1);
        }
    }
    assert forall|k: int| 0 <= k < stack.len() implies fenced(after, #[trigger] stack[k]) by {
        if k < rest.len() {
            assert(stack[k] == rest[k]);
        }
    }
    assert forall|k1: int, k2: int| 0 <= k1 < k2 < stack.len() implies apart(
        #[trigger] stack[k1],
        #[trigger] stack[k2],
    ) by {
        if k2 < rest.len() {
            assert(whole[k1] == rest[k1]);
            assert(whole[k2] == rest[k2]);
            assert(apart(whole[k1], whole[k2]));
        } else if k1 < rest.len() {
            assert(stack[k1] == rest[k1]);
            assert(apart(rest[k1], (start, end)));
        }
    }
    assert forall|p: int| 1 <= p < after.len() implies #[trigger] split(after, p) || covered(
        stack,
        p,
    ) by {
        if start < p <= end {
            if p < pivot {
                let k = rest.len() as int;
                assert(covers(stack[k], p));
            } else if p > pivot + 1 {
                let k = stack.len() - 1;
                assert(covers(stack[k], p));
            }
        } else if split(before, p) {
            lemma_split_kept(before, after, start as int, end as int, p);
        } else {
            let k = choose|k: int| 0 <= k < whole.len() && #[trigger] covers(whole[k], p);
            assert(k < rest.len());
            assert(stack[k] == rest[k]);
            assert(covers(stack[k], p));
        }
    }
}

/// A segment with fewer than two elements needs no sorting.
proof fn lemma_segment_done<E: Ord>(s: Seq<E>, rest: Seq<(usize, usize)>, segment: (usize, usize))
    requires
        waiting_segments(s, rest.push(segment)),
        segment.0 >= segment.1,
    ensures
        waiting_segments(s, rest),
{
    let whole = rest.push(segment);
    assert forall|k: int| 0 <= k < rest.len() implies fenced(s, #[trigger] rest[k]) by {
        assert(whole[k] == rest[k]);
    }
    assert forall|k1: int, k2: int| 0 <= k1 < k2 < rest.len() implies apart(
        #[trigger] rest[k1],
        #[trigger] rest[k2],
    ) by {
        assert(whole[k1] == rest[k1]);
        assert(whole[k2] == rest[k2]);
    }
    assert forall|p: int| 1 <= p < s.len() implies #[trigger] split(s, p) || covered(rest, p) by {
        if !split(s, p) {
            let k = choose|k: int| 0 <= k < whole.len() && #[trigger] covers(whole[k], p);
            assert(whole[k] == rest[k]);
            assert(covers(rest[k], p));
        }
    }
}

/// Moves the first element of the segment to the place it has in sorted
/// order, with no greater element before it and no lesser one after it
/// within the segment, and returns that place.
fn partition<E: Ord + Copy>(l: &mut [E], start_index: usize, end_index: usize) -> (i: usize)
    requires
        lawful::<E>(),
        start_index < end_index < old(l)@.len(),
    ensures
        start_index <= i <= end_index,
        final(l)@.to_multiset() == old(l)@.to_multiset(),
        rearranged_within(old(l)@, final(l)@, start_index as int, end_index as int),
        forall|a: int| start_index <= a < i ==> le(#[trigger] final(l)@[a], final(l)@[i as int]),
        forall|b: int| i < b <= end_index ==> le(final(l)@[i as int], #[trigger] final(l)@[b]),
{
    let basis: E = l[start_index];
    let mut i: usize = start_index;
    let mut j: usize = end_index;
    let ghost mut hole: int = start_index as int;
    proof {
        assert(l@.update(hole, basis) =~= l@);
        assert forall|k: int| start_index <= k <= end_index implies within(
            old(l)@,
            #[trigger] l@[k],
            start_index as int,
            end_index as int,
        ) by {
            assert(old(l)@[k] == l@[k]);
        }
    }
    while j > i
        invariant
            lawful::<E>(),
            l@.len() == old(l)@.len(),
            start_index <= i <= j <= end_index < l@.len(),
            hole == i,
            basis == old(l)@[start_index as int],
            l@.update(hole, basis).to_multiset() == old(l)@.to_multiset(),
            forall|k: int|
                0 <= k < l@.len() && !(start_index <= k <= end_index) ==> #[trigger] l@[k] == old(
                    l,
                )@[k],
            forall|k: int|
                start_index <= k <= end_index && k != hole ==> within(
                    old(l)@,
                    #[trigger] l@[k],
                    start_index as int,
                    end_index as int,
                ),
            forall|a: int| start_index <= a < i ==> le(#[trigger] l@[a], basis),
            forall|b: int| j < b <= end_index ==> le(basis, #[trigger] l@[b]),
        decreases j - i,
    {
        let ghost i0 = i;
        let ghost j0 = j;
        while j > i && j > start_index
            invariant_except_break
                hole == i,
            invariant
                lawful::<E>(),
                l@.len() == old(l)@.len(),
                start_index <= i <= j <= end_index < l@.len(),
                i == i0,
                i < j0,
                j <= j0,
                hole == i || hole == j,
                l@.update(hole, basis).to_multiset() == old(l)@.to_multiset(),
                forall|k: int|
                    0 <= k < l@.len() && !(start_index <= k <= end_index) ==> #[trigger] l@[k]
                        == old(l)@[k],
                forall|k: int|
                    start_index <= k <= end_index && k != hole ==> within(
                        old(l)@,
                        #[trigger] l@[k],
                        start_index as int,
                        end_index as int,
                    ),
                forall|a: int| start_index <= a < i ==> le(#[trigger] l@[a], basis),
                forall|b: int| j < b <= end_index ==> le(basis, #[trigger] l@[b]),
            ensures
                hole == j,
                j > i ==> lt(l@[i as int], basis),
                j < j0 || j > i,
            decreases j,
        {
            if !less(&l[j], &basis) {
                proof {
                    lemma_total(l@[j as int], basis);
                }
                j -= 1;
            } else {
                let ghost s = l@;
                l[i] = l[j];
                proof {
                    let filled = s.update(i as int, basis);
                    lemma_swapped_keeps_elements(filled, i as int, j as int);
                    assert(l@.update(j as int, basis) =~= swapped(filled, i as int, j as int));
                    hole = j as int;
                    assert forall|k: int|
                        start_index <= k <= end_index && k != hole implies within(
                        old(l)@,
                        #[trigger] l@[k],
                        start_index as int,
                        end_index as int,
                    ) by {
                        if k == i {
                            assert(l@[k] == s[j as int]);
                        } else {
                            assert(l@[k] == s[k]);
                        }
                    }
                }
                break ;
            }
        }
        let ghost i1 = i;
        while i < j && i < end_index
            invariant_except_break
                hole == j,
            invariant
                lawful::<E>(),
                l@.len() == old(l)@.len(),
                start_index <= i <= j <= end_index < l@.len(),
                i1 <= i,
                hole == i || hole == j,
                i == i1 && i < j ==> lt(l@[i as int], basis),
                l@.update(hole, basis).to_multiset() == old(l)@.to_multiset(),
                forall|k: int|
                    0 <= k < l@.len() && !(start_index <= k <= end_index) ==> #[trigger] l@[k]
                        == old(l)@[k],
                forall|k: int|
                    start_index <= k <= end_index && k != hole ==> within(
                        old(l)@,
                        #[trigger] l@[k],
                        start_index as int,
                        end_index as int,
                    ),
                forall|a: int| start_index <= a < i ==> le(#[trigger] l@[a], basis),
                forall|b: int| j < b <= end_index ==> le(basis, #[trigger] l@[b]),
            ensures
                hole == i,
                i1 < j ==> i > i1,
            decreases j - i,
        {
            if !less(&basis, &l[i]) {
                proof {
                    lemma_total(basis, l@[i as int]);
                }
                i += 1;
            } else {
                let ghost s = l@;
                proof {
                    lemma_total(basis, s[i as int]);
                    lemma_total(s[i as int], basis);
                }
                l[j] = l[i];
                proof {
                    let filled = s.update(j as int, basis);
                    lemma_swapped_keeps_elements(filled, i as int, j as int);
                    assert(l@.update(i as int, basis) =~= swapped(filled, i as int, j as int));
                    hole = i as int;
                    assert forall|k: int|
                        start_index <= k <= end_index && k != hole implies within(
                        old(l)@,
                        #[trigger] l@[k],
                        start_index as int,
                        end_index as int,
                    ) by {
                        if k == j {
                            assert(l@[k] == s[i as int]);
                        } else {
                            assert(l@[k] == s[k]);
                        }
                    }
                }
                break ;
            }
        }
    }
    let ghost s = l@;
    l[i] = basis;
    proof {
        assert(l@ =~= s.update(i as int, basis));
        lemma_total(basis, basis);
        assert forall|k: int| start_index <= k <= end_index implies within(
            old(l)@,
            #[trigger] l@[k],
            start_index as int,
            end_index as int,
        ) by {
            if k != i {
                assert(l@[k] == s[k]);
            }
        }
        assert forall|a: int| start_index <= a < i implies le(#[trigger] l@[a], l@[i as int]) by {
            assert(l@[a] == s[a]);
        }
        assert forall|b: int| i < b <= end_index implies le(l@[i as int], #[trigger] l@[b]) by {
            assert(l@[b] == s[b]);
        }
    }
    i
}

/// Quicksort with an explicit stack of the segments that are yet to be
/// sorted. Each segment is partitioned about its first element.
pub fn quick_sort<E: Ord + Copy>(l: &mut [E])
    requires
        lawful::<E>(),
    ensures
        sorts(old(l)@, final(l)@),
{
    let len: usize = l.len();
    if len == 0 {
        return ;
    }
    let mut stack: Vec<(usize, usize)> = Vec::new();
    stack.push((0, len - 1));
    proof {
        assert forall|p: int| 1 <= p < l@.len() implies #[trigger] split(l@, p) || covered(
            stack@,
            p,
        ) by {
            assert(covers(stack@[0], p));
        }
    }
    while stack.len() > 0
        invariant
            lawful::<E>(),
            l@.len() == len,
            l@.to_multiset() == old(l)@.to_multiset(),
            waiting_segments(l@, stack@),
        decreases work(stack@),
    {
        let ghost whole = stack@;
        let ghost before = l@;
        let segment: (usize, usize) = stack.pop().unwrap();
        let start_index: usize = segment.0;
        let end_index: usize = segment.1;
        proof {
            assert(whole =~= stack@.push(segment));
            lemma_work_push(stack@, segment);
            assert(whole[stack@.len() as int] == segment);
            assert(fenced(before, whole[stack@.len() as int]));
        }
        if start_index < end_index {
            let ghost rest = stack@;
            let i: usize = partition(l, start_index, end_index);
            if i > 0 {
                proof {
                    lemma_work_push(stack@, (start_index, (i - 1) as usize));
                }
                stack.push((start_index, i - 1));
            }
            if i < end_index {
                proof {
                    lemma_work_push(stack@, ((i + 1) as usize, end_index));
                }
                stack.push((i + 1, end_index));
            }
            proof {
                assert(stack@ =~= after_partition(rest, start_index, end_index, i));
                lemma_partitioned(before, l@, rest, start_index, end_index, i);
            }
        } else {
            proof {
                lemma_segment_done(before, stack@, segment);
            }
        }
    }
    proof {
        assert forall|a: int, b: int| 0 <= a <= b < l@.len() implies le(
            #[trigger] l@[a],
            #[trigger] l@[b],
        ) by {
            lemma_total(l@[a], l@[a]);
            if a < b {
                assert(split(l@, b) || covered(stack@, b));
            }
        }
    }
}

/// What a waiting segment adds to the work that is left.
spec fn cost(segment: (usize, usize)) -> nat {
    if segment.0 <= segment.1 {
        (2 * (segment.1 - segment.0 + 1) + 1) as nat
    } else {
        1
    }
}

/// The work that is left, which every turn of the sort makes less.
spec fn work(stack: Seq<(usize, usize)>) -> nat
    decreases stack.len(),
{
    if stack.len() == 0 {
        0
    } else {
        work(stack.drop_last()) + cost(stack.last())
    }
}

/// A segment that is put on the stack adds its cost to the work.
proof fn lemma_work_push(stack: Seq<(usize, usize)>, segment: (usize, usize))
    ensures
        work(stack.push(segment)) == work(stack) + cost(segment),
{
    assert(stack.push(segment).drop_last() =~= stack);
}

} // verus!
