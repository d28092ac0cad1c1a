//! Bubble sort.

use super::{lemma_swapped_keeps_elements, sorts};
use crate::order::{lawful, le, lemma_total, lemma_transitive, less};
use vstd::prelude::*;

verus! {

/// Bubble sort: each pass carries the greatest of the elements not yet
/// placed to the end of them.
pub fn bubble_sort<E: Ord>(l: &mut [E])
    requires
        lawful::<E>(),
    ensures
        sorts(old(l)@, final(l)@),
{
    let len: usize = l.len();
    let mut placed: usize = 0;
    while placed < len
        invariant
            lawful::<E>(),
            l@.len() == len,
            placed <= len,
            l@.to_multiset() == old(l)@.to_multiset(),
            forall|a: int, b: int|
                len - placed <= a <= b < len ==> le(#[trigger] l@[a], #[trigger] l@[b]),
            forall|a: int, b: int|
                0 <= a < len - placed <= b < len ==> le(#[trigger] l@[a], #[trigger] l@[b]),
        decreases len - placed,
    {
        let mut j: usize = 0;
        proof {
            lemma_total(l@[0], l@[0]);
        }
        while j + 1 < len - placed
            invariant
                lawful::<E>(),
                l@.len() == len,
                placed < len,
                j < len - placed,
                l@.to_multiset() == old(l)@.to_multiset(),
                forall|a: int, b: int|
                    len - placed <= a <= b < len ==> le(#[trigger] l@[a], #[trigger] l@[b]),
                forall|a: int, b: int|
                    0 <= a < len - placed <= b < len ==> le(#[trigger] l@[a], #[trigger] l@[b]),
                forall|k: int| 0 <= k <= j ==> le(#[trigger] l@[k], l@[j as int]),
            decreases len - j,
        {
            let ghost s = l@;
            if less(&l[j + 1], &l[j]) {
                proof {
                    lemma_swapped_keeps_elements(s, j as int, j as int + 1);
                    lemma_total(s[j as int + 1], s[j as int]);
                }
                l.swap(j, j + 1);
            } else {
                proof {
                    lemma_total(s[j as int + 1], s[j as int]);
                }
            }
            proof {
                let t = l@;
                lemma_total(t[j as int + 1], t[j as int + 1]);
                assert forall|k: int| 0 <= k <= j + 1 implies le(#[trigger] t[k], t[j as int + 1]) by {
                    if k < j {
                        assert(t[k] == s[k]);
                        lemma_transitive(s[k], s[j as int], t[j as int + 1]);
                    }
                }
            }
            j += 1;
        }
        placed += 1;
    }
}

} // verus!
