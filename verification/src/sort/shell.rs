//! Shell sort.

use super::{lemma_swapped_keeps_elements, sorts, swapped};
use crate::order::{lawful, le, lemma_total, lemma_transitive, less, lt};
use vstd::prelude::*;

verus! {

/// Shell sort: insertion sort over the elements that lie `gap` apart, for
/// `gap` halved from half the length down to one.
pub fn shell_sort<E: Ord + Copy>(l: &mut [E])
    requires
        lawful::<E>(),
    ensures
        sorts(old(l)@, final(l)@),
{
    let len: usize = l.len();
    let mut gap: usize = len / 2;
    proof {
        if len == 1 {
            lemma_total(l@[0], l@[0]);
        }
    }
    while gap > 0
        invariant
            lawful::<E>(),
            l@.len() == len,
            gap <= len / 2,
            l@.to_multiset() == old(l)@.to_multiset(),
            gap == 0 ==> forall|a: int, b: int|
                0 <= a <= b < len ==> le(#[trigger] l@[a], #[trigger] l@[b]),
        decreases gap,
    {
        let mut j: usize = 0;
        while j < gap
            invariant
                lawful::<E>(),
                l@.len() == len,
                0 < gap <= len / 2,
                j <= gap,
                l@.to_multiset() == old(l)@.to_multiset(),
                gap == 1 && j == 1 ==> forall|a: int, b: int|
                    0 <= a <= b < len ==> le(#[trigger] l@[a], #[trigger] l@[b]),
            decreases gap - j,
        {
            let mut t: usize = j + gap;
            let ghost mut steps: int = 1;
            proof {
                lemma_total(l@[0], l@[0]);
                assert(1 * gap == gap) by (nonlinear_arith);
            }
            while t < len
                invariant
                    lawful::<E>(),
                    l@.len() == len,
                    0 < gap <= len / 2,
                    j < gap,
                    steps >= 1,
                    t == j + steps * gap,
                    l@.to_multiset() == old(l)@.to_multiset(),
                    gap == 1 ==> forall|a: int, b: int|
                        0 <= a <= b < t && b < len ==> le(#[trigger] l@[a], #[trigger] l@[b]),
                ensures
                    gap == 1 ==> forall|a: int, b: int|
                        0 <= a <= b < len ==> le(#[trigger] l@[a], #[trigger] l@[b]),
                decreases len - t,
            {
                let insert_num: E = l[t];
                let mut i: usize = t;
                let ghost mut back: int = steps;
                proof {
                    assert(l@.update(t as int, insert_num) =~= l@);
                }
                while i > j
                    invariant
                        lawful::<E>(),
                        l@.len() == len,
                        0 < gap,
                        j < gap,
                        j <= i <= t < len,
                        back >= 0,
                        i == j + back * gap,
                        l@.update(i as int, insert_num).to_multiset() == old(l)@.to_multiset(),
                        gap == 1 ==> forall|a: int, b: int|
                            0 <= a <= b <= t && a != i && b != i ==> le(
                                #[trigger] l@[a],
                                #[trigger] l@[b],
                            ),
                        gap == 1 ==> forall|b: int| i < b <= t ==> lt(insert_num, #[trigger] l@[b]),
                    ensures
                        gap == 1 ==> i == 0 || le(l@[i - 1], insert_num),
                    decreases i,
                {
                    proof {
                        assert(back >= 1 && back * gap >= gap && (back - 1) * gap == back * gap
                            - gap) by (nonlinear_arith)
                            requires
                                i > j,
                                i == j + back * gap,
                                back >= 0,
                                gap > 0,
                        ;
                    }
                    if less(&insert_num, &l[i - gap]) {
                        let ghost s = l@;
                        l[i] = l[i - gap];
                        proof {
                            let t_seq = l@;
                            let filled = s.update(i as int, insert_num);
                            lemma_swapped_keeps_elements(filled, i as int - gap as int, i as int);
                            assert(t_seq.update(i as int - gap as int, insert_num) =~= swapped(
                                filled,
                                i as int - gap as int,
                                i as int,
                            ));
                            if gap == 1 {
                                assert forall|a: int, b: int|
                                    0 <= a <= b <= t && a != i - 1 && b != i - 1 implies le(
                                    #[trigger] t_seq[a],
                                    #[trigger] t_seq[b],
                                ) by {
                                    let from_a = if a == i {
                                        i - 1
                                    } else {
                                        a
                                    };
                                    let from_b = if b == i {
                                        i - 1
                                    } else {
                                        b
                                    };
                                    assert(t_seq[a] == s[from_a]);
                                    assert(t_seq[b] == s[from_b]);
                                    lemma_total(s[from_a], s[from_a]);
                                }
                            }
                        }
                    } else {
                        proof {
                            lemma_total(insert_num, l@[i as int - gap as int]);
                        }
                        break ;
                    }
                    i -= gap;
                    proof {
                        back = back - 1;
                    }
                }
                let ghost s = l@;
                l[i] = insert_num;
                proof {
                    let t_seq = l@;
                    assert(t_seq =~= s.update(i as int, insert_num));
                    if gap == 1 {
                        assert forall|a: int, b: int| 0 <= a <= b < t + 1 && b < len implies le(
                            #[trigger] t_seq[a],
                            #[trigger] t_seq[b],
                        ) by {
                            lemma_total(insert_num, insert_num);
                            if a == i && b == i {
                            } else if a == i {
                                lemma_total(insert_num, s[b]);
                            } else if b == i {
                                if a < i - 1 {
                                    lemma_transitive(s[a], s[i - 1], insert_num);
                                }
                            } else {
                            }
                        }
                    }
                }
                if len - t <= gap {
                    break ;
                }
                t += gap;
                proof {
                    assert((steps + 1) * gap == steps * gap + gap) by (nonlinear_arith);
                    steps = steps + 1;
                }
            }
            j += 1;
        }
        gap /= 2;
    }
}

} // verus!
