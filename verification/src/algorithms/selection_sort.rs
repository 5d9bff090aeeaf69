//! Selection sort, by the elements themselves or by a key taken from each.

use crate::algorithms::slices::{exchanged, lemma_exchange_keeps_elements};
use crate::algorithms::Order;
use crate::order::{
    ascending, at_most, descending, is_greater, is_less, lemma_at_most_chain,
    lemma_less_or_at_most, total_order,
};
use vstd::prelude::*;

verus! {

/// `a` may stand before `b` in a sequence sorted in `order`.
pub open spec fn in_order<K: PartialOrd>(order: Order, a: K, b: K) -> bool {
    match order {
        Order::Asc => at_most(a, b),
        Order::Desc => at_most(b, a),
    }
}

/// `f` accepts every element and gives each element one key only.
pub open spec fn key_function<T, K, F: Fn(&T) -> &K>(f: F) -> bool {
    &&& forall|x: &T| #[trigger] f.requires((x,))
    &&& forall|x: &T, k1: &K, k2: &K|
        #[trigger] f.ensures((x,), k1) && #[trigger] f.ensures((x,), k2) ==> k1 == k2
}

/// The keys that `f` gives to the elements of `s` are sorted in `order`.
pub open spec fn sorted_by_key<T, K: PartialOrd, F: Fn(&T) -> &K>(
    s: Seq<T>,
    order: Order,
    f: F,
) -> bool {
    forall|i: int, j: int, ki: &K, kj: &K|
        0 <= i < j < s.len() && #[trigger] f.ensures((&s[i],), ki) && #[trigger] f.ensures(
            (&s[j],),
            kj,
        ) ==> in_order(order, *ki, *kj)
}

/// The keys that `key` gives to the elements of `s` are sorted in `order`.
pub open spec fn sorted_by<T, K: PartialOrd>(s: Seq<T>, order: Order, key: spec_fn(T) -> K) -> bool {
    forall|i: int, j: int| 0 <= i < j < s.len() ==> in_order(order, key(s[i]), key(s[j]))
}

/// `key` says which key `f` returns.
pub open spec fn computes<T, K, F: Fn(&T) -> &K>(f: F, key: spec_fn(T) -> K) -> bool {
    &&& forall|x: &T| #[trigger] f.requires((x,))
    &&& forall|x: &T, k: &K| #[trigger] f.ensures((x,), k) ==> *k == key(*x)
}

/// Selection sort proper: for each position in turn, the element that
/// belongs there is selected from the rest and exchanged into it.
fn select_and_exchange<T, K, F>(
    list: &mut Vec<T>,
    order: Order,
    f: F,
    Ghost(key): Ghost<spec_fn(T) -> K>,
) where K: PartialOrd, F: Fn(&T) -> &K
    requires
        total_order::<K>(),
        computes(f, key),
    ensures
        final(list)@.len() == old(list)@.len(),
        final(list)@.to_multiset() == old(list)@.to_multiset(),
        sorted_by(final(list)@, order, key),
{
    let mut current: usize = 0;
    while current < list.len()
        invariant
            total_order::<K>(),
            computes(f, key),
            list@.to_multiset() == old(list)@.to_multiset(),
            list@.len() == old(list)@.len(),
            current <= list@.len(),
            forall|i: int, j: int|
                0 <= i < current && i < j < list@.len() ==> in_order(
                    order,
                    #[trigger] key(list@[i]),
                    #[trigger] key(list@[j]),
                ),
        decreases list@.len() - current,
    {
        let mut smallest = current;
        let mut next = current + 1;
        proof {
            lemma_less_or_at_most(key(list@[current as int]), key(list@[current as int]));
        }
        while next < list.len()
            invariant
                total_order::<K>(),
                computes(f, key),
                current <= smallest < next <= list@.len(),
                forall|j: int|
                    current <= j < next ==> in_order(
                        order,
                        key(list@[smallest as int]),
                        #[trigger] key(list@[j]),
                    ),
            decreases list@.len() - next,
        {
            let smallest_key = f(&list[smallest]);
            let next_key = f(&list[next]);
            let selects = match order {
                Order::Desc => is_less(smallest_key, next_key),
                Order::Asc => is_greater(smallest_key, next_key),
            };
            proof {
                lemma_less_or_at_most(*smallest_key, *next_key);
                lemma_less_or_at_most(*next_key, *smallest_key);
                lemma_less_or_at_most(*next_key, *next_key);
                if selects {
                    assert forall|j: int| current <= j < next + 1 implies in_order(
                        order,
                        key(list@[next as int]),
                        #[trigger] key(list@[j]),
                    ) by {
                        if j < next {
                            assert(in_order(order, *smallest_key, key(list@[j])));
                            match order {
                                Order::Asc => lemma_at_most_chain(
                                    *next_key,
                                    *smallest_key,
                                    key(list@[j]),
                                ),
                                Order::Desc => lemma_at_most_chain(
                                    key(list@[j]),
                                    *smallest_key,
                                    *next_key,
                                ),
                            }
                        }
                    }
                }
            }
            if selects {
                smallest = next;
            }
            next = next + 1;
        }
        let ghost before = list@;
        list.as_mut_slice().swap(current, smallest);
        proof {
            lemma_exchange_keeps_elements(before, current as int, smallest as int);
            assert forall|i: int, j: int| 0 <= i < current + 1 && i < j < list@.len() implies in_order(
                order,
                #[trigger] key(list@[i]),
                #[trigger] key(list@[j]),
            ) by {
                let from_i = if i == current {
                    smallest as int
                } else {
                    i
                };
                let from_j = if j == current {
                    smallest as int
                } else if j == smallest {
                    current as int
                } else {
                    j
                };
                assert(list@[i] == before[from_i]);
                assert(list@[j] == before[from_j]);
                if i < current {
                    assert(in_order(order, key(before[i]), key(before[from_j])));
                } else {
                    assert(in_order(order, key(before[smallest as int]), key(before[from_j])));
                }
            }
        }
        current = current + 1;
    }
}

/// Sorts `list` in `order` by the keys that `f` takes from its elements.
pub fn selection_sort_by_key<T, K, F>(list: &mut Vec<T>, order: Order, f: F) where
    K: PartialOrd,
    F: Fn(&T) -> &K,

    requires
        total_order::<K>(),
        key_function(f),
    ensures
        final(list)@.len() == old(list)@.len(),
        final(list)@.to_multiset() == old(list)@.to_multiset(),
        sorted_by_key(final(list)@, order, f),
{
    let ghost key = |x: T| *choose|k: &K| f.ensures((&x,), k);
    select_and_exchange(list, order, f, Ghost(key));
}

/// The key of an element that is sorted by itself.
fn itself<T>(x: &T) -> (r: &T)
    ensures
        r == x,
{
    x
}

/// Sorts `list` in `order` by selection.
pub fn selection_sort<T>(list: &mut Vec<T>, order: Order) where T: PartialOrd
    requires
        total_order::<T>(),
    ensures
        final(list)@.len() == old(list)@.len(),
        final(list)@.to_multiset() == old(list)@.to_multiset(),
        match order {
            Order::Asc => ascending(final(list)@),
            Order::Desc => descending(final(list)@),
        },
{
    select_and_exchange(list, order, itself::<T>, Ghost(|x: T| x));
}

} // verus!
