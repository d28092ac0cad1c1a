//! Selection sort.

use super::{lemma_swapped_keeps_elements, sorts};
use crate::order::{lawful, le, lemma_total, lemma_transitive, less};
use vstd::prelude::*;

verus! {

/// Selection sort: the least of the elements not yet placed is moved to
/// the front of them, until none is left.
pub fn select_sort<E: Ord>(l: &mut [E])
    requires
        lawful::<E>(),
    ensures
        sorts(old(l)@, final(l)@),
{
    let len: usize = l.len();
    let mut i: usize = 0;
    while i < len
        invariant
            lawful::<E>(),
            l@.len() == len,
            i <= len,
            l@.to_multiset() == old(l)@.to_multiset(),
            forall|a: int, b: int| 0 <= a <= b < i ==> le(#[trigger] l@[a], #[trigger] l@[b]),
            forall|a: int, b: int| 0 <= a < i <= b < len ==> le(#[trigger] l@[a], #[trigger] l@[b]),
        decreases len - i,
    {
        let mut min_index: usize = i;
        let mut j: usize = i + 1;
        proof {
            lemma_total(l@[i as int], l@[i as int]);
        }
        while j < len
            invariant
                lawful::<E>(),
                l@.len() == len,
                i <= min_index < j <= len,
                forall|k: int| i <= k < j ==> le(l@[min_index as int], #[trigger] l@[k]),
            decreases len - j,
        {
            if less(&l[j], &l[min_index]) {
                proof {
                    let s = l@;
                    lemma_total(s[j as int], s[min_index as int]);
                    lemma_total(s[j as int], s[j as int]);
                    assert forall|k: int| i <= k < j + 1 implies le(s[j as int], #[trigger] s[k]) by {
                        if k < j {
                            lemma_transitive(s[j as int], s[min_index as int], s[k]);
                        }
                    }
                }
                min_index = j;
            } else {
                proof {
                    lemma_total(l@[j as int], l@[min_index as int]);
                }
            }
            j += 1;
        }
        proof {
            lemma_swapped_keeps_elements(l@, min_index as int, i as int);
        }
        l.swap(min_index, i);
        i += 1;
    }
}

} // verus!
