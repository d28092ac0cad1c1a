//! Classical sorting algorithms, each proved to put its input in order.

use crate::order::le;
use vstd::prelude::*;

pub mod bubble;
pub mod heap;
pub mod insert;
pub mod merge;
pub mod quick;
pub mod select;
pub mod shell;

pub use self::bubble::bubble_sort;
pub use self::heap::heap_sort;
pub use self::insert::insert_sort;
pub use self::merge::merge_sort;
pub use self::quick::quick_sort;
pub use self::select::select_sort;
pub use self::shell::shell_sort;

verus! {

/// No element of `s` is ordered after one that follows it.
pub open spec fn sorted<E: Ord>(s: Seq<E>) -> bool {
    forall|i: int, j: int| 0 <= i <= j < s.len() ==> le(#[trigger] s[i], #[trigger] s[j])
}

/// `after` holds the elements of `before`, in order.
pub open spec fn sorts<E: Ord>(before: Seq<E>, after: Seq<E>) -> bool {
    &&& sorted(after)
    &&& after.to_multiset() == before.to_multiset()
}

/// `s` with the elements at `a` and `b` exchanged.
pub open spec fn swapped<E>(s: Seq<E>, a: int, b: int) -> Seq<E> {
    s.update(a, s[b]).update(b, s[a])
}

/// Exchanging two elements keeps the elements.
pub proof fn lemma_swapped_keeps_elements<E>(s: Seq<E>, a: int, b: int)
    requires
        0 <= a < s.len(),
        0 <= b < s.len(),
    ensures
        swapped(s, a, b).to_multiset() == s.to_multiset(),
{
    broadcast use vstd::seq_lib::group_to_multiset_ensures;

    assert(swapped(s, a, b).to_multiset() =~= s.to_multiset());
}

} // verus!
