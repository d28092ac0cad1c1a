//! Insertion sort.

use super::{lemma_swapped_keeps_elements, sorts, swapped};
use crate::order::{lawful, le, lemma_total, lemma_transitive, less, lt};
use vstd::prelude::*;

verus! {

/// Insertion sort: each element in turn is moved towards the front, past
/// the elements that are ordered after it.
pub fn insert_sort<E: Ord + Copy>(l: &mut [E])
    requires
        lawful::<E>(),
    ensures
        sorts(old(l)@, final(l)@),
{
    let len: usize = l.len();
    let mut i: usize = 1;
    proof {
        if len > 0 {
            lemma_total(l@[0], l@[0]);
        }
    }
    while i < len
        invariant
            lawful::<E>(),
            l@.len() == len,
            1 <= i,
            l@.to_multiset() == old(l)@.to_multiset(),
            forall|a: int, b: int| 0 <= a <= b < i && b < len ==> le(#[trigger] l@[a], #[trigger] l@[b]),
        decreases len - i,
    {
        let insert_num: E = l[i];
        let mut j: usize = i;
        proof {
            assert(l@.update(i as int, insert_num) =~= l@);
        }
        while j > 0
            invariant
                lawful::<E>(),
                l@.len() == len,
                j <= i < len,
                l@.update(j as int, insert_num).to_multiset() == old(l)@.to_multiset(),
                forall|a: int, b: int|
                    0 <= a <= b <= i && a != j && b != j ==> le(#[trigger] l@[a], #[trigger] l@[b]),
                forall|b: int| j < b <= i ==> lt(insert_num, #[trigger] l@[b]),
            ensures
                j == 0 || le(l@[j - 1], insert_num),
            decreases j,
        {
            if less(&insert_num, &l[j - 1]) {
                let ghost s = l@;
                l[j] = l[j - 1];
                proof {
                    let t = l@;
                    let filled = s.update(j as int, insert_num);
                    lemma_swapped_keeps_elements(filled, j as int - 1, j as int);
                    assert(t.update(j as int - 1, insert_num) =~= swapped(
                        filled,
                        j as int - 1,
                        j as int,
                    ));
                    assert forall|a: int, b: int|
                        0 <= a <= b <= i && a != j - 1 && b != j - 1 implies le(
                        #[trigger] t[a],
                        #[trigger] t[b],
                    ) by {
                        let from_a = if a == j {
                            j - 1
                        } else {
                            a
                        };
                        let from_b = if b == j {
                            j - 1
                        } else {
                            b
                        };
                        assert(t[a] == s[from_a]);
                        assert(t[b] == s[from_b]);
                        lemma_total(s[from_a], s[from_a]);
                    }
                }
            } else {
                proof {
                    lemma_total(insert_num, l@[j - 1]);
                }
                break ;
            }
            j -= 1;
        }
        let ghost s = l@;
        l[j] = insert_num;
        proof {
            let t = l@;
            assert(t =~= s.update(j as int, insert_num));
            assert forall|a: int, b: int| 0 <= a <= b < i + 1 && b < len implies le(
                #[trigger] t[a],
                #[trigger] t[b],
            ) by {
                lemma_total(insert_num, insert_num);
                if a == j && b == j {
                } else if a == j {
                    lemma_total(insert_num, s[b]);
                } else if b == j {
                    if a < j - 1 {
                        lemma_transitive(s[a], s[j - 1], insert_num);
                    }
                } else {
                }
            }
        }
        i += 1;
    }
}

} // verus!
