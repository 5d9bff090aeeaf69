//! A total order on a generic element type, stated over the specification that
//! `vstd` attaches to `PartialOrd`, together with the consequences that the
//! sorting and searching proofs use.

use core::cmp::Ordering;
use vstd::prelude::*;
use vstd::std_specs::cmp::PartialOrdSpec;

verus! {

/// `a` is strictly below `b`.
pub open spec fn less<T: PartialOrd>(a: T, b: T) -> bool {
    a.partial_cmp_spec(&b) == Some(Ordering::Less)
}

/// `a` is strictly above `b`.
pub open spec fn greater<T: PartialOrd>(a: T, b: T) -> bool {
    a.partial_cmp_spec(&b) == Some(Ordering::Greater)
}

/// `a` and `b` occupy the same place in the order.
pub open spec fn equivalent<T: PartialOrd>(a: T, b: T) -> bool {
    a.partial_cmp_spec(&b) == Some(Ordering::Equal)
}

/// `a` is below `b` or shares its place.
pub open spec fn at_most<T: PartialOrd>(a: T, b: T) -> bool {
    less(a, b) || equivalent(a, b)
}

/// Any two elements compare.
pub open spec fn comparable<T: PartialOrd>() -> bool {
    forall|a: T, b: T| less(a, b) || #[trigger] equivalent(a, b) || greater(a, b)
}

/// Swapping the arguments swaps `less` and `greater`.
pub open spec fn mirrored<T: PartialOrd>() -> bool {
    forall|a: T, b: T| #[trigger] less(a, b) <==> greater(b, a)
}

/// Every element is equivalent to itself, and equivalence is symmetric.
pub open spec fn reflexive<T: PartialOrd>() -> bool {
    &&& forall|a: T| #[trigger] equivalent(a, a)
    &&& forall|a: T, b: T| #[trigger] equivalent(a, b) ==> equivalent(b, a)
}

/// `at_most` is transitive.
pub open spec fn transitive<T: PartialOrd>() -> bool {
    forall|a: T, b: T, c: T| #[trigger]
        at_most(a, b) && #[trigger] at_most(b, c) ==> at_most(a, c)
}

/// The comparison operators of `T` compute a total preorder: the verified
/// routines of this crate are stated for such types.
pub open spec fn total_order<T: PartialOrd>() -> bool {
    &&& T::obeys_partial_cmp_spec()
    &&& comparable::<T>()
    &&& mirrored::<T>()
    &&& reflexive::<T>()
    &&& transitive::<T>()
}

/// Types that satisfy the comparison laws of `vstd` (all primitive integers,
/// and tuples, references and options of such types) are totally ordered.
pub proof fn lemma_total_order_from_laws<T: Ord>()
    requires
        vstd::laws_cmp::obeys_cmp::<T>(),
    ensures
        total_order::<T>(),
{
    reveal(vstd::laws_cmp::obeys_cmp_partial_ord);
    reveal(vstd::laws_cmp::obeys_cmp_ord);
    reveal(vstd::laws_cmp::obeys_partial_cmp_spec_properties);
    reveal(vstd::laws_eq::obeys_eq_spec_properties);
    assert(comparable::<T>());
    assert(mirrored::<T>());
    assert(reflexive::<T>());
    assert(transitive::<T>());
}

/// The primitive integer types are totally ordered.
pub proof fn lemma_integers_totally_ordered()
    ensures
        total_order::<u8>(),
        total_order::<u16>(),
        total_order::<u32>(),
        total_order::<u64>(),
        total_order::<u128>(),
        total_order::<usize>(),
        total_order::<i8>(),
        total_order::<i16>(),
        total_order::<i32>(),
        total_order::<i64>(),
        total_order::<i128>(),
        total_order::<isize>(),
{
    broadcast use vstd::laws_cmp::group_laws_cmp;

    lemma_total_order_from_laws::<u8>();
    lemma_total_order_from_laws::<u16>();
    lemma_total_order_from_laws::<u32>();
    lemma_total_order_from_laws::<u64>();
    lemma_total_order_from_laws::<u128>();
    lemma_total_order_from_laws::<usize>();
    lemma_total_order_from_laws::<i8>();
    lemma_total_order_from_laws::<i16>();
    lemma_total_order_from_laws::<i32>();
    lemma_total_order_from_laws::<i64>();
    lemma_total_order_from_laws::<i128>();
    lemma_total_order_from_laws::<isize>();
}

/// `at_most` chains.
pub proof fn lemma_at_most_chain<T: PartialOrd>(a: T, b: T, c: T)
    requires
        total_order::<T>(),
        at_most(a, b),
        at_most(b, c),
    ensures
        at_most(a, c),
{
}

/// Exactly one of `less(a, b)` and `at_most(b, a)` holds.
pub proof fn lemma_less_or_at_most<T: PartialOrd>(a: T, b: T)
    requires
        total_order::<T>(),
    ensures
        less(a, b) <==> !at_most(b, a),
        greater(a, b) <==> !at_most(a, b),
        greater(a, b) <==> less(b, a),
{
    assert(less(a, b) || equivalent(a, b) || greater(a, b));
    assert(less(b, a) || equivalent(b, a) || greater(b, a));
    assert(less(a, b) <==> greater(b, a));
    assert(less(b, a) <==> greater(a, b));
    if equivalent(a, b) {
        assert(equivalent(b, a));
    }
    if equivalent(b, a) {
        assert(equivalent(a, b));
    }
}

/// A strict step followed by a weak one is strict.
pub proof fn lemma_less_then_at_most<T: PartialOrd>(a: T, b: T, c: T)
    requires
        total_order::<T>(),
        less(a, b),
        at_most(b, c),
    ensures
        less(a, c),
{
    lemma_at_most_chain(a, b, c);
    if equivalent(a, c) {
        assert(equivalent(c, a));
        lemma_at_most_chain(b, c, a);
        lemma_less_or_at_most(a, b);
    }
}

/// A weak step followed by a strict one is strict.
pub proof fn lemma_at_most_then_less<T: PartialOrd>(a: T, b: T, c: T)
    requires
        total_order::<T>(),
        at_most(a, b),
        less(b, c),
    ensures
        less(a, c),
{
    lemma_at_most_chain(a, b, c);
    if equivalent(a, c) {
        assert(equivalent(c, a));
        lemma_at_most_chain(c, a, b);
        lemma_less_or_at_most(b, c);
    }
}

/// Executable test for `greater`.
pub fn is_greater<T: PartialOrd>(a: &T, b: &T) -> (r: bool)
    requires
        total_order::<T>(),
    ensures
        r == greater(*a, *b),
{
    *a > *b
}

/// Executable test for `less`.
pub fn is_less<T: PartialOrd>(a: &T, b: &T) -> (r: bool)
    requires
        total_order::<T>(),
    ensures
        r == less(*a, *b),
{
    *a < *b
}

/// The elements of `s` never descend.
pub open spec fn ascending<T: PartialOrd>(s: Seq<T>) -> bool {
    forall|i: int, j: int| 0 <= i < j < s.len() ==> at_most(#[trigger] s[i], #[trigger] s[j])
}

/// The elements of `s` never ascend.
pub open spec fn descending<T: PartialOrd>(s: Seq<T>) -> bool {
    forall|i: int, j: int| 0 <= i < j < s.len() ==> at_most(#[trigger] s[j], #[trigger] s[i])
}

/// An element equivalent to `a` is neither below nor above what `a` is
/// neither below nor above.
pub proof fn lemma_equivalent_exclusive<T: PartialOrd>(a: T, b: T)
    requires
        total_order::<T>(),
    ensures
        equivalent(a, b) <==> !less(a, b) && !greater(a, b),
        equivalent(a, b) <==> equivalent(b, a),
{
    assert(less(a, b) || equivalent(a, b) || greater(a, b));
    assert(less(b, a) || equivalent(b, a) || greater(b, a));
    lemma_less_or_at_most(a, b);
    lemma_less_or_at_most(b, a);
}

} // verus!
