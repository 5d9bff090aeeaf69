//! Merge sort.

use crate::order::{
    ascending, at_most, is_less, lemma_at_most_chain, lemma_less_or_at_most, total_order,
};
use vstd::prelude::*;

verus! {

broadcast use vstd::multiset::group_multiset_axioms;

/// Copies `arr[from..to]` into a new vector.
fn copy_range<T: Copy>(arr: &[T], from: usize, to: usize) -> (r: Vec<T>)
    requires
        from <= to <= arr@.len(),
    ensures
        r@ == arr@.subrange(from as int, to as int),
{
    let mut r: Vec<T> = Vec::new();
    let mut i = from;
    while i < to
        invariant
            from <= i <= to <= arr@.len(),
            r@ == arr@.subrange(from as int, i as int),
        decreases to - i,
    {
        r.push(arr[i]);
        proof {
            assert(r@ =~= arr@.subrange(from as int, i + 1));
        }
        i = i + 1;
    }
    r
}

/// Sorts `arr` ascending: the two halves are sorted in the same way and
/// merged back, always taking the smaller of the two next elements.
pub fn merge_sort<T>(arr: &mut [T]) where T: PartialOrd + Copy
    requires
        total_order::<T>(),
    ensures
        final(arr)@.len() == old(arr)@.len(),
        final(arr)@.to_multiset() == old(arr)@.to_multiset(),
        ascending(final(arr)@),
    decreases old(arr)@.len(),
{
    if arr.len() <= 1 {
        return ;
    }
    let len = arr.len();
    let mut first_half = copy_range(arr, 0, len / 2);
    let mut second_half = copy_range(arr, len / 2, len);
    proof {
        assert(old(arr)@ =~= first_half@ + second_half@);
        vstd::seq_lib::lemma_multiset_commutative(first_half@, second_half@);
    }
    merge_sort(first_half.as_mut_slice());
    merge_sort(second_half.as_mut_slice());
    let ghost first = first_half@;
    let ghost second = second_half@;
    proof {
        vstd::seq_lib::to_multiset_len(first);
        vstd::seq_lib::to_multiset_len(second);
        vstd::seq_lib::to_multiset_len(old(arr)@.subrange(0, (len / 2) as int));
        vstd::seq_lib::to_multiset_len(old(arr)@.subrange((len / 2) as int, len as int));
        assert(first.subrange(0, 0) =~= Seq::<T>::empty());
        assert(second.subrange(0, 0) =~= Seq::<T>::empty());
        assert(arr@.subrange(0, 0) =~= Seq::<T>::empty());
        let nothing = Seq::<T>::empty();
        assert forall|v: T| nothing.to_multiset().count(v) == 0 by {
            vstd::seq_lib::to_multiset_contains(nothing, v);
        }
        assert(nothing.to_multiset() =~= nothing.to_multiset().add(nothing.to_multiset()));
    }
    let mut first_half_index: usize = 0;
    let mut second_half_index: usize = 0;
    while first_half_index < first_half.len() || second_half_index < second_half.len()
        invariant
            total_order::<T>(),
            first_half@ == first,
            second_half@ == second,
            ascending(first),
            ascending(second),
            arr@.len() == len,
            first.len() + second.len() == len,
            first_half_index <= first.len(),
            second_half_index <= second.len(),
            arr@.subrange(0, first_half_index + second_half_index).to_multiset()
                == first.subrange(0, first_half_index as int).to_multiset().add(
                second.subrange(0, second_half_index as int).to_multiset(),
            ),
            forall|a: int, b: int|
                0 <= a < b < first_half_index + second_half_index ==> at_most(
                    #[trigger] arr@[a],
                    #[trigger] arr@[b],
                ),
            forall|a: int|
                0 <= a < first_half_index + second_half_index && first_half_index < first.len()
                    ==> at_most(#[trigger] arr@[a], first[first_half_index as int]),
            forall|a: int|
                0 <= a < first_half_index + second_half_index && second_half_index < second.len()
                    ==> at_most(#[trigger] arr@[a], second[second_half_index as int]),
        decreases len - first_half_index - second_half_index,
    {
        let insertion_index = first_half_index + second_half_index;
        let ghost before = arr@;
        let takes_first = if first_half_index < first_half.len() {
            if second_half_index < second_half.len() {
                is_less(&first_half[first_half_index], &second_half[second_half_index])
            } else {
                true
            }
        } else {
            false
        };
        if takes_first {
            let taken = first_half[first_half_index];
            arr[insertion_index] = taken;
            proof {
                let i = first_half_index as int;
                let j = second_half_index as int;
                assert(arr@.subrange(0, i + j + 1) =~= before.subrange(0, i + j).push(taken));
                assert(first.subrange(0, i + 1) =~= first.subrange(0, i).push(taken));
                vstd::seq_lib::to_multiset_build(before.subrange(0, i + j), taken);
                vstd::seq_lib::to_multiset_build(first.subrange(0, i), taken);
                assert(arr@.subrange(0, i + j + 1).to_multiset() =~= first.subrange(
                    0,
                    i + 1,
                ).to_multiset().add(second.subrange(0, j).to_multiset()));
                assert forall|a: int| 0 <= a < i + j + 1 && i + 1 < first.len() implies at_most(
                    #[trigger] arr@[a],
                    first[i + 1],
                ) by {
                    assert(at_most(first[i], first[i + 1]));
                    if a < i + j {
                        lemma_at_most_chain(before[a], first[i], first[i + 1]);
                    }
                }
                assert forall|a: int| 0 <= a < i + j + 1 && j < second.len() implies at_most(
                    #[trigger] arr@[a],
                    second[j],
                ) by {
                    if a == i + j {
                        lemma_less_or_at_most(first[i], second[j]);
                    }
                }
            }
            first_half_index = first_half_index + 1;
        } else {
            let taken = second_half[second_half_index];
            arr[insertion_index] = taken;
            proof {
                let i = first_half_index as int;
                let j = second_half_index as int;
                assert(arr@.subrange(0, i + j + 1) =~= before.subrange(0, i + j).push(taken));
                assert(second.subrange(0, j + 1) =~= second.subrange(0, j).push(taken));
                vstd::seq_lib::to_multiset_build(before.subrange(0, i + j), taken);
                vstd::seq_lib::to_multiset_build(second.subrange(0, j), taken);
                assert(arr@.subrange(0, i + j + 1).to_multiset() =~= first.subrange(
                    0,
                    i,
                ).to_multiset().add(second.subrange(0, j + 1).to_multiset()));
                assert forall|a: int| 0 <= a < i + j + 1 && j + 1 < second.len() implies at_most(
                    #[trigger] arr@[a],
                    second[j + 1],
                ) by {
                    assert(at_most(second[j], second[j + 1]));
                    if a < i + j {
                        lemma_at_most_chain(before[a], second[j], second[j + 1]);
                    }
                }
                assert forall|a: int| 0 <= a < i + j + 1 && i < first.len() implies at_most(
                    #[trigger] arr@[a],
                    first[i],
                ) by {
                    if a == i + j {
                        lemma_less_or_at_most(first[i], second[j]);
                    }
                }
            }
            second_half_index = second_half_index + 1;
        }
    }
    proof {
        assert(arr@.subrange(0, len as int) =~= arr@);
        assert(first.subrange(0, first.len() as int) =~= first);
        assert(second.subrange(0, second.len() as int) =~= second);
    }
}

} // verus!
