//! Insertion sort.

use crate::algorithms::slices::{exchanged, lemma_exchange_keeps_elements};
use crate::order::{
    ascending, at_most, greater, is_greater, lemma_at_most_chain, lemma_less_or_at_most,
    total_order,
};
use vstd::prelude::*;

verus! {

/// Sorts `arr` ascending: each element in turn is taken out, the larger
/// elements before it move up by one place, and it goes into the gap.
pub fn insertion_sort<T>(arr: &mut [T]) where T: PartialOrd + Copy
    requires
        total_order::<T>(),
    ensures
        final(arr)@.len() == old(arr)@.len(),
        final(arr)@.to_multiset() == old(arr)@.to_multiset(),
        ascending(final(arr)@),
{
    let mut i: usize = 1;
    while i < arr.len()
        invariant
            total_order::<T>(),
            arr@.to_multiset() == old(arr)@.to_multiset(),
            arr@.len() == old(arr)@.len(),
            1 <= i,
            forall|a: int, b: int|
                0 <= a < b < i && b < arr@.len() ==> at_most(#[trigger] arr@[a], #[trigger] arr@[b]),
        decreases arr@.len() - i,
    {
        let key = arr[i];
        let mut j = i;
        proof {
            assert(arr@.update(j as int, key) =~= arr@);
        }
        while j > 0 && is_greater(&arr[j - 1], &key)
            invariant
                total_order::<T>(),
                j <= i < arr@.len(),
                arr@.len() == old(arr)@.len(),
                arr@.update(j as int, key).to_multiset() == old(arr)@.to_multiset(),
                forall|a: int, b: int|
                    0 <= a < b <= i && a != j && b != j ==> at_most(
                        #[trigger] arr@[a],
                        #[trigger] arr@[b],
                    ),
                forall|b: int| j < b <= i ==> greater(#[trigger] arr@[b], key),
            decreases j,
        {
            let ghost before = arr@;
            arr[j] = arr[j - 1];
            proof {
                let filled = before.update(j as int, key);
                lemma_exchange_keeps_elements(filled, j - 1, j as int);
                assert(arr@.update(j - 1, key) =~= exchanged(filled, j - 1, j as int));
            }
            j = j - 1;
        }
        let ghost before = arr@;
        arr[j] = key;
        proof {
            assert forall|a: int, b: int| 0 <= a < b < i + 1 && b < arr@.len() implies at_most(
                #[trigger] arr@[a],
                #[trigger] arr@[b],
            ) by {
                if b == j {
                    lemma_less_or_at_most(before[j - 1], key);
                    if a < j - 1 {
                        lemma_at_most_chain(before[a], before[j - 1], key);
                    }
                } else if a == j {
                    lemma_less_or_at_most(before[b], key);
                    lemma_less_or_at_most(key, before[b]);
                }
            }
        }
        i = i + 1;
    }
    proof {
        assert forall|a: int, b: int| 0 <= a < b < arr@.len() implies at_most(
            #[trigger] arr@[a],
            #[trigger] arr@[b],
        ) by {}
    }
}

} // verus!
