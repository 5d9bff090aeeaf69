//! Quicksort on integers.

use crate::algorithms::slices::lemma_exchange_keeps_elements;
use vstd::prelude::*;

verus! {

/// No element of `s` is above the one after it.
pub open spec fn nondecreasing(s: Seq<i32>) -> bool {
    forall|i: int, j: int| 0 <= i < j < s.len() ==> s[i] <= s[j]
}

/// Every element of a sequence is an element of any sequence with the same
/// elements.
pub proof fn lemma_same_elements<T>(a: Seq<T>, b: Seq<T>, i: int)
    requires
        a.to_multiset() == b.to_multiset(),
        0 <= i < a.len(),
    ensures
        b.contains(a[i]),
        a.len() == b.len(),
{
    vstd::seq_lib::to_multiset_contains(a, a[i]);
    vstd::seq_lib::to_multiset_contains(b, a[i]);
    vstd::seq_lib::to_multiset_len(a);
    vstd::seq_lib::to_multiset_len(b);
    assert(a.contains(a[i]));
}

/// Sorts `slice`: it is partitioned around a pivot, and the part before the
/// pivot and the part after it are sorted in the same way.
pub fn quick_sort(slice: &mut [i32])
    ensures
        final(slice)@.len() == old(slice)@.len(),
        final(slice)@.to_multiset() == old(slice)@.to_multiset(),
        nondecreasing(final(slice)@),
    decreases old(slice)@.len(),
{
    if slice.len() < 2 {
        return ;
    }
    let pivot_index = partitioning(slice);
    let ghost parted = slice@;
    let (left, rest) = slice.split_at_mut(pivot_index);
    let (pivot, right) = rest.split_at_mut(1);
    let ghost left_before = left@;
    let ghost right_before = right@;
    let ghost pivot_part = pivot@;
    quick_sort(left);
    quick_sort(right);
    proof {
        let l = left@;
        let r = right@;
        let p = parted[pivot_index as int];
        assert(pivot_part =~= seq![p]);
        assert(slice@ == l + (pivot_part + r));
        assert(parted =~= left_before + (pivot_part + right_before));
        vstd::seq_lib::lemma_multiset_commutative(l, pivot_part + r);
        vstd::seq_lib::lemma_multiset_commutative(pivot_part, r);
        vstd::seq_lib::lemma_multiset_commutative(left_before, pivot_part + right_before);
        vstd::seq_lib::lemma_multiset_commutative(pivot_part, right_before);
        assert forall|i: int| 0 <= i < l.len() implies l[i] <= p by {
            lemma_same_elements(l, left_before, i);
            let k = choose|k: int| 0 <= k < left_before.len() && left_before[k] == l[i];
            assert(left_before[k] == parted[k]);
        }
        assert forall|i: int| 0 <= i < r.len() implies r[i] > p by {
            lemma_same_elements(r, right_before, i);
            let k = choose|k: int| 0 <= k < right_before.len() && right_before[k] == r[i];
            assert(right_before[k] == parted[pivot_index + 1 + k]);
        }
        lemma_same_elements(l + (pivot_part + r), parted, 0);
        assert forall|i: int, j: int| 0 <= i < j < slice@.len() implies slice@[i] <= slice@[j] by {
            let n = l.len();
            if j < n {
                assert(l[i] <= l[j]);
            } else if i < n {
                assert(slice@[i] == l[i]);
                if j > n {
                    assert(slice@[j] == r[j - n - 1]);
                }
            } else if i == n {
                assert(slice@[j] == r[j - n - 1]);
            } else {
                assert(slice@[i] == r[i - n - 1]);
                assert(slice@[j] == r[j - n - 1]);
            }
        }
    }
}

/// Takes the middle element as the pivot and moves the elements that do not
/// exceed it before it and the others after it. Returns where the pivot
/// ends up.
fn partitioning(slice: &mut [i32]) -> (left: usize)
    requires
        old(slice)@.len() >= 1,
    ensures
        left < final(slice)@.len(),
        final(slice)@.len() == old(slice)@.len(),
        final(slice)@.to_multiset() == old(slice)@.to_multiset(),
        forall|i: int| 0 <= i < left ==> final(slice)@[i] <= final(slice)@[left as int],
        forall|i: int|
            left < i < final(slice)@.len() ==> final(slice)@[i] > final(slice)@[left as int],
{
    let len = slice.len();
    let pivot_index = len / 2;
    let pivot = slice[pivot_index];
    proof {
        lemma_exchange_keeps_elements(slice@, pivot_index as int, len - 1);
    }
    slice.swap(pivot_index, len - 1);
    let mut left: usize = 0;
    let mut right: usize = 0;
    while right < len - 1
        invariant
            len == slice@.len(),
            len >= 1,
            left <= right <= len - 1,
            slice@[len - 1] == pivot,
            slice@.to_multiset() == old(slice)@.to_multiset(),
            forall|i: int| 0 <= i < left ==> slice@[i] <= pivot,
            forall|i: int| left <= i < right ==> slice@[i] > pivot,
        decreases len - right,
    {
        if slice[right] <= pivot {
            proof {
                lemma_exchange_keeps_elements(slice@, left as int, right as int);
            }
            slice.swap(left, right);
            left = left + 1;
        }
        right = right + 1;
    }
    proof {
        lemma_exchange_keeps_elements(slice@, left as int, len - 1);
    }
    slice.swap(left, len - 1);
    left
}

} // verus!
