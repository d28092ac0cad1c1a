//! Merge sort.

use super::sorts;
use crate::order::{lawful, le, lemma_total, lemma_transitive, less};
use vstd::prelude::*;

verus! {

/// `x` is `0`, or `m` more than a multiple of `m`.
spec fn multiple(x: int, m: int) -> bool
    decreases x,
{
    if x <= 0 || m <= 0 {
        x == 0
    } else {
        x >= m && multiple(x - m, m)
    }
}

/// Every number that is not negative is a multiple of one.
proof fn lemma_multiple_of_one(x: int)
    requires
        0 <= x,
    ensures
        multiple(x, 1),
    decreases x,
{
    if x > 0 {
        lemma_multiple_of_one(x - 1);
    }
}

/// A multiple of twice a number is a multiple of the number.
proof fn lemma_multiple_of_half(x: int, m: int)
    requires
        0 < m,
        multiple(x, 2 * m),
    ensures
        multiple(x, m),
    decreases x,
{
    if x > 0 {
        lemma_multiple_of_half(x - 2 * m, m);
        assert(multiple(x - m, m));
    }
}

/// Two multiples of `m` lie at least `m` apart.
proof fn lemma_multiples_apart(x: int, y: int, m: int)
    requires
        0 < m,
        multiple(x, m),
        multiple(y, m),
        x < y,
    ensures
        x + m <= y,
    decreases x,
{
    if x > 0 {
        lemma_multiples_apart(x - m, y - m, m);
    }
}

/// The element at `p` is ordered before the one in front of it.
spec fn descent<E: Ord>(s: Seq<E>, p: int) -> bool {
    !le(s[p - 1], s[p])
}

/// The sequence is made of sorted runs of `m` elements each; the last run
/// holds what is left over as well.
spec fn runs_of<E: Ord>(s: Seq<E>, m: int) -> bool {
    forall|p: int| 1 <= p < s.len() && #[trigger] descent(s, p) ==> multiple(p, m) && p + m <= s.len()
}

/// Up to `j` the sequence is made of sorted runs of `2 * m` elements each,
/// and from `j` on of sorted runs of `m` elements.
spec fn runs_merged_to<E: Ord>(s: Seq<E>, m: int, j: int) -> bool {
    forall|p: int|
        1 <= p < s.len() && #[trigger] descent(s, p) ==> (p <= j && multiple(p, 2 * m)) || (p >= j
            && multiple(p, m) && p + m <= s.len())
}

/// From `from` up to, but not including, `to`, no element is ordered after
/// one that follows it.
spec fn range_sorted<E: Ord>(s: Seq<E>, from: int, to: int) -> bool {
    forall|a: int, b: int| from <= a <= b < to ==> le(#[trigger] s[a], #[trigger] s[b])
}

/// Where no element is ordered before the one in front of it, the
/// elements are in order.
proof fn lemma_no_descent<E: Ord>(s: Seq<E>, from: int, to: int)
    requires
        lawful::<E>(),
        0 <= from <= to <= s.len(),
        forall|p: int| from < p < to ==> !#[trigger] descent(s, p),
    ensures
        range_sorted(s, from, to),
{
    assert forall|a: int, b: int| from <= a <= b < to implies le(#[trigger] s[a], #[trigger] s[b]) by {
        lemma_no_descent_between(s, from, to, a, b);
    }
}

/// Where no element is ordered before the one in front of it, an element
/// is not ordered after any that follows it.
proof fn lemma_no_descent_between<E: Ord>(s: Seq<E>, from: int, to: int, a: int, b: int)
    requires
        lawful::<E>(),
        0 <= from <= a <= b < to <= s.len(),
        forall|p: int| from < p < to ==> !#[trigger] descent(s, p),
    ensures
        le(s[a], s[b]),
    decreases b - a,
{
    if a == b {
        lemma_total(s[a], s[a]);
    } else {
        lemma_no_descent_between(s, from, to, a, b - 1);
        assert(!descent(s, b));
        lemma_transitive(s[a], s[b - 1], s[b]);
    }
}

/// A range of positions, both ends included.
struct Index {
    left: usize,
    right: usize,
}

/// Merges two sorted ranges that lie side by side into one sorted range.
fn merge<E: Ord + Copy>(l: &mut [E], index1: Index, index2: Index)
    requires
        lawful::<E>(),
        index1.left <= index1.right,
        index1.right + 1 == index2.left,
        index2.left <= index2.right < old(l)@.len(),
        range_sorted(old(l)@, index1.left as int, index1.right + 1),
        range_sorted(old(l)@, index2.left as int, index2.right + 1),
    ensures
        final(l)@.len() == old(l)@.len(),
        final(l)@.to_multiset() == old(l)@.to_multiset(),
        range_sorted(final(l)@, index1.left as int, index2.right + 1),
        forall|k: int|
            0 <= k < old(l)@.len() && !(index1.left <= k <= index2.right) ==> #[trigger] final(l)@[k]
                == old(l)@[k],
{
    broadcast use vstd::seq_lib::group_to_multiset_ensures;

    let mut temp_list: Vec<E> = Vec::new();
    let mut i: usize = index1.left;
    let mut j: usize = index2.left;
    let ghost first = old(l)@.subrange(index1.left as int, index1.right + 1);
    let ghost second = old(l)@.subrange(index2.left as int, index2.right + 1);
    proof {
        assert(first.take(0) =~= Seq::<E>::empty());
        assert(second.take(0) =~= Seq::<E>::empty());
        assert(temp_list@ =~= Seq::<E>::empty());
        assert(temp_list@.to_multiset() =~= first.take(0).to_multiset().add(
            second.take(0).to_multiset(),
        ));
    }
    while i <= index1.right && j <= index2.right
        invariant
            lawful::<E>(),
            l@ == old(l)@,
            index1.left <= i <= index1.right + 1,
            index2.left <= j <= index2.right + 1,
            index1.right + 1 == index2.left,
            index2.right < l@.len(),
            first == old(l)@.subrange(index1.left as int, index1.right + 1),
            second == old(l)@.subrange(index2.left as int, index2.right + 1),
            range_sorted(l@, index1.left as int, index1.right + 1),
            range_sorted(l@, index2.left as int, index2.right + 1),
            temp_list@.len() == (i - index1.left) + (j - index2.left),
            temp_list@.to_multiset() == first.take(i - index1.left).to_multiset().add(
                second.take(j - index2.left).to_multiset(),
            ),
            range_sorted(temp_list@, 0, temp_list@.len() as int),
            forall|a: int, b: int|
                0 <= a < temp_list@.len() && i <= b <= index1.right ==> le(
                    #[trigger] temp_list@[a],
                    #[trigger] l@[b],
                ),
            forall|a: int, b: int|
                0 <= a < temp_list@.len() && j <= b <= index2.right ==> le(
                    #[trigger] temp_list@[a],
                    #[trigger] l@[b],
                ),
        decreases (index1.right + 1 - i) + (index2.right + 1 - j),
    {
        let ghost done = temp_list@;
        if less(&l[i], &l[j]) {
            let taken: E = l[i];
            temp_list.push(taken);
            proof {
                lemma_total(taken, l@[j as int]);
                lemma_total(taken, taken);
                lemma_taken(done, first, i - index1.left, second, j - index2.left, true);
                assert forall|a: int, b: int|
                    0 <= a < temp_list@.len() && j <= b <= index2.right implies le(
                    #[trigger] temp_list@[a],
                    #[trigger] l@[b],
                ) by {
                    if a == done.len() {
                        lemma_transitive(taken, l@[j as int], l@[b]);
                    } else {
                        assert(temp_list@[a] == done[a]);
                    }
                }
                assert forall|a: int, b: int|
                    0 <= a < temp_list@.len() && i + 1 <= b <= index1.right implies le(
                    #[trigger] temp_list@[a],
                    #[trigger] l@[b],
                ) by {
                    if a < done.len() {
                        assert(temp_list@[a] == done[a]);
                    }
                }
                assert forall|a: int, b: int| 0 <= a <= b < temp_list@.len() implies le(
                    #[trigger] temp_list@[a],
                    #[trigger] temp_list@[b],
                ) by {
                    if b < done.len() {
                        assert(temp_list@[a] == done[a] && temp_list@[b] == done[b]);
                    } else if a < done.len() {
                        assert(temp_list@[a] == done[a]);
                        assert(le(done[a], l@[i as int]));
                    }
                }
            }
            i += 1;
        } else {
            let taken: E = l[j];
            temp_list.push(taken);
            proof {
                lemma_total(l@[i as int], taken);
                lemma_total(taken, taken);
                lemma_taken(done, first, i - index1.left, second, j - index2.left, false);
                assert forall|a: int, b: int|
                    0 <= a < temp_list@.len() && i <= b <= index1.right implies le(
                    #[trigger] temp_list@[a],
                    #[trigger] l@[b],
                ) by {
                    if a == done.len() {
                        lemma_transitive(taken, l@[i as int], l@[b]);
                    } else {
                        assert(temp_list@[a] == done[a]);
                    }
                }
                assert forall|a: int, b: int|
                    0 <= a < temp_list@.len() && j + 1 <= b <= index2.right implies le(
                    #[trigger] temp_list@[a],
                    #[trigger] l@[b],
                ) by {
                    if a < done.len() {
                        assert(temp_list@[a] == done[a]);
                    }
                }
                assert forall|a: int, b: int| 0 <= a <= b < temp_list@.len() implies le(
                    #[trigger] temp_list@[a],
                    #[trigger] temp_list@[b],
                ) by {
                    if b < done.len() {
                        assert(temp_list@[a] == done[a] && temp_list@[b] == done[b]);
                    } else if a < done.len() {
                        assert(temp_list@[a] == done[a]);
                        assert(le(done[a], l@[j as int]));
                    }
                }
            }
            j += 1;
        }
    }
    while i <= index1.right
        invariant
            lawful::<E>(),
            l@ == old(l)@,
            index1.left <= i <= index1.right + 1,
            index2.left <= j <= index2.right + 1,
            i <= index1.right ==> j == index2.right + 1,
            index1.right + 1 == index2.left,
            index2.right < l@.len(),
            first == old(l)@.subrange(index1.left as int, index1.right + 1),
            second == old(l)@.subrange(index2.left as int, index2.right + 1),
            range_sorted(l@, index1.left as int, index1.right + 1),
            temp_list@.len() == (i - index1.left) + (j - index2.left),
            temp_list@.to_multiset() == first.take(i - index1.left).to_multiset().add(
                second.take(j - index2.left).to_multiset(),
            ),
            range_sorted(temp_list@, 0, temp_list@.len() as int),
            forall|a: int, b: int|
                0 <= a < temp_list@.len() && i <= b <= index1.right ==> le(
                    #[trigger] temp_list@[a],
                    #[trigger] l@[b],
                ),
            forall|a: int, b: int|
                0 <= a < temp_list@.len() && j <= b <= index2.right ==> le(
                    #[trigger] temp_list@[a],
                    #[trigger] l@[b],
                ),
        decreases index1.right + 1 - i,
    {
        let ghost done = temp_list@;
        let taken: E = l[i];
        temp_list.push(taken);
        proof {
            lemma_total(taken, taken);
            lemma_taken(done, first, i - index1.left, second, j - index2.left, true);
            assert forall|a: int, b: int|
                0 <= a < temp_list@.len() && i + 1 <= b <= index1.right implies le(
                #[trigger] temp_list@[a],
                #[trigger] l@[b],
            ) by {
                if a < done.len() {
                    assert(temp_list@[a] == done[a]);
                }
            }
            assert forall|a: int, b: int| 0 <= a <= b < temp_list@.len() implies le(
                #[trigger] temp_list@[a],
                #[trigger] temp_list@[b],
            ) by {
                if b < done.len() {
                    assert(temp_list@[a] == done[a] && temp_list@[b] == done[b]);
                } else if a < done.len() {
                    assert(temp_list@[a] == done[a]);
                    assert(le(done[a], l@[i as int]));
                }
            }
        }
        i += 1;
    }
    while j <= index2.right
        invariant
            lawful::<E>(),
            l@ == old(l)@,
            i == index1.right + 1,
            index2.left <= j <= index2.right + 1,
            index1.left <= index1.right,
            index1.right + 1 == index2.left,
            index2.right < l@.len(),
            first == old(l)@.subrange(index1.left as int, index1.right + 1),
            second == old(l)@.subrange(index2.left as int, index2.right + 1),
            range_sorted(l@, index2.left as int, index2.right + 1),
            temp_list@.len() == (i - index1.left) + (j - index2.left),
            temp_list@.to_multiset() == first.take(i - index1.left).to_multiset().add(
                second.take(j - index2.left).to_multiset(),
            ),
            range_sorted(temp_list@, 0, temp_list@.len() as int),
            forall|a: int, b: int|
                0 <= a < temp_list@.len() && j <= b <= index2.right ==> le(
                    #[trigger] temp_list@[a],
                    #[trigger] l@[b],
                ),
        decreases index2.right + 1 - j,
    {
        let ghost done = temp_list@;
        let taken: E = l[j];
        temp_list.push(taken);
        proof {
            lemma_total(taken, taken);
            lemma_taken(done, first, i - index1.left, second, j - index2.left, false);
            assert forall|a: int, b: int|
                0 <= a < temp_list@.len() && j + 1 <= b <= index2.right implies le(
                #[trigger] temp_list@[a],
                #[trigger] l@[b],
            ) by {
                if a < done.len() {
                    assert(temp_list@[a] == done[a]);
                }
            }
            assert forall|a: int, b: int| 0 <= a <= b < temp_list@.len() implies le(
                #[trigger] temp_list@[a],
                #[trigger] temp_list@[b],
            ) by {
                if b < done.len() {
                    assert(temp_list@[a] == done[a] && temp_list@[b] == done[b]);
                } else if a < done.len() {
                    assert(temp_list@[a] == done[a]);
                    assert(le(done[a], l@[j as int]));
                }
            }
        }
        j += 1;
    }
    let ghost merged = temp_list@;
    let ghost head = old(l)@.subrange(0, index1.left as int);
    let ghost tail = old(l)@.subrange(index2.right + 1, old(l)@.len() as int);
    proof {
        assert(first.take(first.len() as int) =~= first);
        assert(second.take(second.len() as int) =~= second);
    }
    let mut index: usize = 0;
    while index < temp_list.len()
        invariant
            l@.len() == old(l)@.len(),
            temp_list@ == merged,
            merged.len() == index2.right + 1 - index1.left,
            index1.left <= index1.right,
            index1.right + 1 == index2.left,
            index2.right < l@.len(),
            index <= merged.len(),
            forall|k: int|
                0 <= k < l@.len() && !(index1.left <= k < index1.left + index) ==> #[trigger] l@[k]
                    == old(l)@[k],
            forall|k: int|
                index1.left <= k < index1.left + index ==> #[trigger] l@[k] == merged[k
                    - index1.left],
        decreases merged.len() - index,
    {
        l[index1.left + index] = temp_list[index];
        index += 1;
    }
    proof {
        let before = old(l)@;
        assert(before =~= head + first + second + tail);
        assert(l@ =~= head + merged + tail);
        vstd::seq_lib::lemma_multiset_commutative(head + first, second);
        vstd::seq_lib::lemma_multiset_commutative(head, first);
        vstd::seq_lib::lemma_multiset_commutative(head + first + second, tail);
        vstd::seq_lib::lemma_multiset_commutative(head, merged);
        vstd::seq_lib::lemma_multiset_commutative(head + merged, tail);
        assert(l@.to_multiset() =~= before.to_multiset());
        assert forall|a: int, b: int| index1.left <= a <= b < index2.right + 1 implies le(
            #[trigger] l@[a],
            #[trigger] l@[b],
        ) by {
            assert(l@[a] == merged[a - index1.left]);
            assert(l@[b] == merged[b - index1.left]);
        }
    }
}

/// What the merged elements are once the next element of one of the two
/// ranges has been taken.
proof fn lemma_taken<E>(
    done: Seq<E>,
    first: Seq<E>,
    from_first: int,
    second: Seq<E>,
    from_second: int,
    take_first: bool,
)
    requires
        0 <= from_first <= first.len(),
        0 <= from_second <= second.len(),
        take_first ==> from_first < first.len(),
        !take_first ==> from_second < second.len(),
        done.to_multiset() == first.take(from_first).to_multiset().add(
            second.take(from_second).to_multiset(),
        ),
    ensures
        take_first ==> done.push(first[from_first]).to_multiset() == first.take(
            from_first + 1,
        ).to_multiset().add(second.take(from_second).to_multiset()),
        !take_first ==> done.push(second[from_second]).to_multiset() == first.take(
            from_first,
        ).to_multiset().add(second.take(from_second + 1).to_multiset()),
{
    broadcast use vstd::seq_lib::group_to_multiset_ensures;

    if take_first {
        assert(first.take(from_first + 1) =~= first.take(from_first).push(first[from_first]));
        assert(done.push(first[from_first]).to_multiset() =~= first.take(
            from_first + 1,
        ).to_multiset().add(second.take(from_second).to_multiset()));
    } else {
        assert(second.take(from_second + 1) =~= second.take(from_second).push(second[from_second]));
        assert(done.push(second[from_second]).to_multiset() =~= first.take(
            from_first,
        ).to_multiset().add(second.take(from_second + 1).to_multiset()));
    }
}

/// Merge sort from the bottom up: runs of one element are merged into
/// sorted runs of two, those into runs of four, and so on, until one run
/// holds every element.
pub fn merge_sort<E: Ord + Copy>(l: &mut [E])
    requires
        lawful::<E>(),
    ensures
        sorts(old(l)@, final(l)@),
{
    let len: usize = l.len();
    let mut merge_len: usize = 1;
    proof {
        assert forall|p: int| 1 <= p < l@.len() && #[trigger] descent(l@, p) implies multiple(p, 1)
            && p + 1 <= l@.len() by {
            lemma_multiple_of_one(p);
        }
    }
    while merge_len <= len / 2
        invariant
            lawful::<E>(),
            l@.len() == len,
            1 <= merge_len,
            l@.to_multiset() == old(l)@.to_multiset(),
            runs_of(l@, merge_len as int),
        decreases len - merge_len,
    {
        let mut j: usize = 0;
        while j <= len - 2 * merge_len
            invariant
                lawful::<E>(),
                l@.len() == len,
                1 <= merge_len,
                2 * merge_len <= len,
                j <= len,
                multiple(j as int, 2 * merge_len),
                l@.to_multiset() == old(l)@.to_multiset(),
                runs_merged_to(l@, merge_len as int, j as int),
            decreases len - j,
        {
            let ghost s = l@;
            let ghost m = merge_len as int;
            proof {
                lemma_multiple_of_half(j as int, m);
                assert(multiple(j + m, m));
                assert forall|p: int| j < p < j + m implies !#[trigger] descent(s, p) by {
                    if descent(s, p) {
                        lemma_multiples_apart(j as int, p, m);
                    }
                }
                assert forall|p: int| j + m < p < j + 2 * m implies !#[trigger] descent(s, p) by {
                    if descent(s, p) {
                        lemma_multiples_apart(j + m, p, m);
                    }
                }
                lemma_no_descent(s, j as int, j + m);
                lemma_no_descent(s, j + m, j + 2 * m);
            }
            let index1 = Index { left: j, right: j + merge_len - 1 };
            let index2 = Index { left: j + merge_len, right: j + 2 * merge_len - 1 };
            merge(l, index1, index2);
            proof {
                let t = l@;
                assert(multiple(j + 2 * m, 2 * m));
                assert forall|p: int| 1 <= p < t.len() && #[trigger] descent(t, p) implies (p <= j
                    + 2 * m && multiple(p, 2 * m)) || (p >= j + 2 * m && multiple(p, m) && p + m
                    <= t.len()) by {
                    if p < j || p > j + 2 * m {
                        assert(t[p - 1] == s[p - 1] && t[p] == s[p]);
                        assert(descent(s, p));
                    } else if j < p < j + 2 * m {
                        assert(le(t[p - 1], t[p]));
                    }
                }
            }
            j += 2 * merge_len;
        }
        proof {
            let s = l@;
            let m = merge_len as int;
            lemma_multiple_of_half(j as int, m);
            assert forall|p: int| j < p < len implies !#[trigger] descent(s, p) by {
                if descent(s, p) {
                    lemma_multiples_apart(j as int, p, m);
                }
            }
            lemma_no_descent(s, j as int, len as int);
            assert(j >= 2 * m);
            assert(multiple(j - 2 * m, 2 * m));
            assert forall|p: int| j - 2 * m < p < j implies !#[trigger] descent(s, p) by {
                if descent(s, p) {
                    lemma_multiples_apart(j - 2 * m, p, 2 * m);
                }
            }
            lemma_no_descent(s, j - 2 * m, j as int);
        }
        if j < len {
            let ghost s = l@;
            let index1 = Index { left: j - 2 * merge_len, right: j - 1 };
            let index2 = Index { left: j, right: len - 1 };
            merge(l, index1, index2);
            proof {
                let t = l@;
                let m = merge_len as int;
                assert forall|p: int| 1 <= p < t.len() && #[trigger] descent(t, p) implies multiple(
                    p,
                    2 * m,
                ) && p + 2 * m <= t.len() by {
                    if p < j - 2 * m {
                        assert(t[p - 1] == s[p - 1] && t[p] == s[p]);
                        assert(descent(s, p));
                        lemma_multiples_apart(p, j - 2 * m, 2 * m);
                    } else if p == j - 2 * m {
                        assert(multiple(j - 2 * m, 2 * m));
                    } else {
                        assert(le(t[p - 1], t[p]));
                    }
                }
            }
        } else {
            proof {
                let s = l@;
                let m = merge_len as int;
                assert forall|p: int| 1 <= p < s.len() && #[trigger] descent(s, p) implies multiple(
                    p,
                    2 * m,
                ) && p + 2 * m <= s.len() by {
                    lemma_multiples_apart(p, j as int, 2 * m);
                }
            }
        }
        merge_len *= 2;
    }
    proof {
        let s = l@;
        assert forall|p: int| 0 < p < len implies !#[trigger] descent(s, p) by {
            if descent(s, p) {
                assert(multiple(p, merge_len as int));
            }
        }
        lemma_no_descent(s, 0, len as int);
    }
}

} // verus!
