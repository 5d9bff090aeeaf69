//! What the sorting routines share: the specification of the slice method
//! that exchanges two elements, and the fact that an exchange keeps the
//! elements.

use vstd::prelude::*;

verus! {

/// `<[T]>::swap` exchanges the elements at `a` and `b` and leaves the others
/// where they are. It panics on an index out of bounds, which the
/// precondition leaves out.
pub assume_specification<Element>[ <[Element]>::swap ](slice: &mut [Element], a: usize, b: usize)
    requires
        a < old(slice)@.len(),
        b < old(slice)@.len(),
    ensures
        final(slice)@ == exchanged(old(slice)@, a as int, b as int),
;

/// `s` with the elements at `a` and `b` exchanged.
pub open spec fn exchanged<T>(s: Seq<T>, a: int, b: int) -> Seq<T> {
    s.update(a, s[b]).update(b, s[a])
}

/// An exchange keeps the elements.
pub proof fn lemma_exchange_keeps_elements<T>(s: Seq<T>, a: int, b: int)
    requires
        0 <= a < s.len(),
        0 <= b < s.len(),
    ensures
        exchanged(s, a, b).to_multiset() == s.to_multiset(),
        exchanged(s, a, b).len() == s.len(),
{
    broadcast use vstd::multiset::group_multiset_axioms;

    let s1 = s.update(a, s[b]);
    vstd::seq_lib::to_multiset_update(s, a, s[b]);
    vstd::seq_lib::to_multiset_update(s1, b, s[a]);
    vstd::seq_lib::to_multiset_contains(s, s[a]);
    vstd::seq_lib::to_multiset_contains(s, s[b]);
    assert(s.contains(s[a]));
    assert(s.contains(s[b]));
    if a == b {
        assert(exchanged(s, a, b) =~= s);
    } else {
        assert(s1[b] == s[b]);
        assert(exchanged(s, a, b).to_multiset() =~= s.to_multiset());
    }
}

} // verus!
