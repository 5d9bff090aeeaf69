//! What the climb from a new leaf towards the head does to the model of the
//! balanced search tree: one step of it, its end without a rotation, and its
//! end in a single or a double rotation.

use crate::data_structures::search_tree_model::{
    lemma_nested, lemma_promoted, lemma_promoted_frame, lemma_same_contents_indexed,
    lemma_same_contents_sorted, lemma_same_shape, Directions, TreeView,
};
use vstd::prelude::*;

verus! {

/// An ancestor of `x` in the subtree of `pn`, other than `pn`, lies in the
/// subtree of the child `ch` of `pn` that holds `x`.
proof fn lemma_ancestor_below<V, K>(m: TreeView<V, K>, x: int, pn: int, ch: int, i: int)
    requires
        m.linked(),
        m.has(x),
        m.has(ch),
        m.covers(ch, x),
        m.nodes[ch].parent == Some(pn),
        m.is_ancestor(i, x),
        m.covers(pn, i),
        i != pn,
    ensures
        m.covers(ch, i),
{
    assert(m.node_linked(ch));
    assert(m.node_linked(pn));
    assert(m.node_linked(i));
    assert(m.child_linked(pn, Directions::Left));
    assert(m.child_linked(pn, Directions::Right));
    if !m.covers(ch, i) {
        // `i` lies on the other side of `pn`, in the subtree of the other child.
        let other = if m.nodes[pn].left == Some(ch) {
            m.nodes[pn].right
        } else {
            m.nodes[pn].left
        };
        if m.rank[i] == m.rank[pn] {
            assert(m.order[m.rank[i]] == i);
        }
        assert(other is Some);
        let c2 = other.unwrap();
        assert(m.node_linked(c2));
        lemma_nested(m, c2, i);
    }
}

/// The parent of `ch` is an ancestor of `x`, on the side where `ch` hangs,
/// and has a larger subtree than `ch`.
pub proof fn lemma_parent_step<V, K>(m: TreeView<V, K>, x: int, pn: int, ch: int)
    requires
        m.linked(),
        m.has(x),
        m.has(ch),
        m.covers(ch, x),
        m.nodes[ch].parent == Some(pn),
    ensures
        m.has(pn),
        m.is_ancestor(pn, x),
        m.nodes[pn].child(m.side(pn, x)) == Some(ch),
        !m.covers(ch, pn),
        m.low[pn] <= m.low[ch],
        m.high[ch] <= m.high[pn],
        m.high[pn] - m.low[pn] > m.high[ch] - m.low[ch],
{
    assert(m.node_linked(ch));
    assert(m.node_linked(pn));
    assert(m.node_linked(x));
    assert(m.child_linked(pn, Directions::Left));
    assert(m.child_linked(pn, Directions::Right));
}

/// One step of the climb that does not tip.
pub proof fn lemma_climb_step<V: PartialOrd, K>(
    m: TreeView<V, K>,
    x: int,
    pn: int,
    ch: int,
    s: TreeView<V, K>,
    s1: TreeView<V, K>,
)
    requires
        m.wf(),
        m.has(x),
        m.climbing(x, ch, s),
        s.balanced(),
        m.nodes[ch].parent == Some(pn),
        s.rebalanced_at(pn, s1),
        s1.nodes[pn].balance == m.climbed_balance(pn, x),
        !m.tips(pn, x),
    ensures
        m.climbing(x, pn, s1),
        s1.balanced(),
        m.high[pn] - m.low[pn] > m.high[ch] - m.low[ch],
        m.high[pn] - m.low[pn] <= m.len(),
{
    lemma_parent_step(m, x, pn, ch);
    assert(m.node_linked(pn));
    assert forall|i: int| m.has(i) implies #[trigger] s1.nodes[i] == m.nodes[i].with_balance(
        s1.nodes[i].balance,
    ) by {
        assert(s.nodes[i] == m.nodes[i].with_balance(s.nodes[i].balance));
        assert(s1.nodes[i] == s.nodes[i].with_balance(s1.nodes[i].balance));
    }
    assert forall|i: int| m.has(i) implies (#[trigger] s1.nodes[i]).balance == (if m.is_ancestor(
        i,
        x,
    ) && m.covers(pn, i) {
        m.climbed_balance(i, x)
    } else {
        m.nodes[i].balance
    }) by {
        if i != pn {
            assert(s1.nodes[i].balance == s.nodes[i].balance);
            if m.is_ancestor(i, x) && m.covers(pn, i) {
                lemma_ancestor_below(m, x, pn, ch, i);
            }
            if m.covers(ch, i) {
                assert(m.covers(pn, i));
            }
        }
    }
    assert forall|i: int| m.is_ancestor(i, x) && m.covers(pn, i) implies !#[trigger] m.tips(
        i,
        x,
    ) by {
        if i != pn {
            lemma_ancestor_below(m, x, pn, ch, i);
        }
    }
    assert forall|i: int| s1.has(i) implies #[trigger] s1.node_balanced(i) by {
        if i == pn {
            assert(m.node_balanced(pn));
        } else {
            assert(s.node_balanced(i));
            assert(s1.nodes[i].balance == s.nodes[i].balance);
        }
    }
}

/// The climb has reached the head without tipping: every ancestor of the
/// new leaf has been adjusted.
pub proof fn lemma_climbed_all<V: PartialOrd, K>(
    m: TreeView<V, K>,
    x: int,
    ch: int,
    s: TreeView<V, K>,
)
    requires
        m.wf(),
        m.has(x),
        m.climbing(x, ch, s),
        s.balanced(),
        m.nodes[ch].parent is None,
    ensures
        m.settled(x, s),
        s.wf(),
        m.same_contents(s),
{
    assert(m.node_linked(ch));
    assert(ch == m.head);
    assert forall|i: int| m.has(i) implies m.covers(ch, i) by {
        assert(m.node_linked(i));
    }
    assert forall|a: int| !m.tips(a, x) by {
        if m.is_ancestor(a, x) {
            assert(m.covers(ch, a));
        }
    }
    let c = m.climbed(x);
    assert(s.nodes =~= c.nodes) by {
        assert forall|i: int| 0 <= i < s.nodes.len() implies s.nodes[i] == c.nodes[i] by {
            assert(s.nodes[i] == m.nodes[i].with_balance(s.nodes[i].balance));
        }
    }
    assert(s == c);
    lemma_same_shape(m, s);
}

/// At a tipping parent the rotation has what it needs: the heavy child is
/// there and, where the heavy subtree bends, so is the child's child on the
/// other side. The parent is the pivot.
pub proof fn lemma_rotation_ready<V: PartialOrd, K>(
    m: TreeView<V, K>,
    x: int,
    pn: int,
    ch: int,
    s: TreeView<V, K>,
    s1: TreeView<V, K>,
)
    requires
        m.wf(),
        m.has(x),
        m.nodes[x].balance == 0,
        m.climbing(x, ch, s),
        s.balanced(),
        m.nodes[ch].parent == Some(pn),
        s.rebalanced_at(pn, s1),
        m.tips(pn, x),
    ensures
        m.is_pivot(pn, x),
        s1.linked(),
        s1.has(pn),
        m.nodes[pn].child(m.side(pn, x)) == Some(ch),
        s1.nodes[pn].child(m.side(pn, x)) == Some(ch),
        m.zigzag(pn, x) ==> m.nodes[ch].child(m.side(pn, x).opposite()) is Some
            && s1.nodes[ch].child(m.side(pn, x).opposite()) == m.nodes[ch].child(
            m.side(pn, x).opposite(),
        ),
{
    lemma_parent_step(m, x, pn, ch);
    lemma_same_shape(m, s);
    lemma_same_shape(s, s1);
    assert forall|b: int| #[trigger] m.tips(b, x) && m.covers(pn, b) implies b == pn by {
        if b != pn {
            lemma_ancestor_below(m, x, pn, ch, b);
        }
    }
    assert(s.nodes[pn] == m.nodes[pn].with_balance(s.nodes[pn].balance));
    assert(s1.nodes[pn] == s.nodes[pn].with_balance(s1.nodes[pn].balance));
    assert(s.nodes[ch] == m.nodes[ch].with_balance(s.nodes[ch].balance));
    assert(s1.nodes[ch] == s.nodes[ch].with_balance(s1.nodes[ch].balance));
    if m.zigzag(pn, x) {
        let d = m.side(pn, x);
        assert(m.node_linked(ch));
        assert(m.node_linked(x));
        assert(m.node_balanced(ch));
        assert(m.child_linked(ch, Directions::Left));
        assert(m.child_linked(ch, Directions::Right));
        assert(ch != x);
        assert(m.is_ancestor(ch, x));
        assert(m.side(ch, x) == d.opposite());
    }
}

/// Being of one shape carries over two steps.
proof fn lemma_same_shape_chain<V, K>(a: TreeView<V, K>, b: TreeView<V, K>, c: TreeView<V, K>)
    requires
        a.same_shape(b),
        b.same_shape(c),
    ensures
        a.same_shape(c),
{
    assert forall|i: int| a.has(i) implies #[trigger] c.nodes[i] == a.nodes[i].with_balance(
        c.nodes[i].balance,
    ) by {
        assert(b.nodes[i] == a.nodes[i].with_balance(b.nodes[i].balance));
        assert(c.nodes[i] == b.nodes[i].with_balance(c.nodes[i].balance));
    }
}

/// Holding the same ids and values carries over two steps.
proof fn lemma_same_contents_chain<V: PartialOrd, K>(
    a: TreeView<V, K>,
    b: TreeView<V, K>,
    c: TreeView<V, K>,
)
    requires
        a.same_contents(b),
        b.same_contents(c) || b.same_shape(c),
    ensures
        a.same_contents(c),
{
    if b.same_shape(c) {
        lemma_same_shape(b, c);
    }
    assert forall|i: int| a.has(i) implies (#[trigger] a.nodes[i]).id == c.nodes[i].id
        && a.nodes[i].value == c.nodes[i].value by {
        assert(a.nodes[i].id == b.nodes[i].id);
        assert(b.nodes[i].id == c.nodes[i].id);
    }
}

/// Setting balance counters keeps the shape.
proof fn lemma_with_balances_shape<V, K>(a: TreeView<V, K>, f: spec_fn(int) -> int)
    ensures
        a.same_shape(a.with_balances(f)),
        forall|i: int| a.has(i) ==> (#[trigger] a.with_balances(f).nodes[i]).balance == f(i),
{
}

/// What the ancestors under the pivot hold when the pivot tips: the counter
/// of every node but the pivot is the one that the rotated tree keeps.
proof fn lemma_balances_below_pivot<V: PartialOrd, K>(
    m: TreeView<V, K>,
    x: int,
    pn: int,
    ch: int,
    s: TreeView<V, K>,
    i: int,
)
    requires
        m.wf(),
        m.has(x),
        m.climbing(x, ch, s),
        s.balanced(),
        m.nodes[ch].parent == Some(pn),
        m.has(i),
        i != pn,
    ensures
        s.nodes[i].balance == (if m.covers(pn, i) {
            m.climbed_balance(i, x)
        } else {
            m.nodes[i].balance
        }),
        -1 <= s.nodes[i].balance <= 1,
{
    lemma_parent_step(m, x, pn, ch);
    assert(s.node_balanced(i));
    if m.is_ancestor(i, x) && m.covers(pn, i) {
        lemma_ancestor_below(m, x, pn, ch, i);
    }
}

/// The climb ends in a single rotation.
pub proof fn lemma_rotated_single<V: PartialOrd, K>(
    m: TreeView<V, K>,
    x: int,
    pn: int,
    ch: int,
    s: TreeView<V, K>,
    s1: TreeView<V, K>,
    f: TreeView<V, K>,
)
    requires
        m.wf(),
        m.has(x),
        m.nodes[x].balance == 0,
        m.climbing(x, ch, s),
        s.balanced(),
        m.nodes[ch].parent == Some(pn),
        s.rebalanced_at(pn, s1),
        m.tips(pn, x),
        !m.zigzag(pn, x),
        f.linked(),
        f == s1.promoted(pn, m.side(pn, x)).with_balances(
            s1.single_balances(pn, m.side(pn, x)),
        ),
    ensures
        f.wf(),
        m.settled(x, f),
        m.same_contents(f),
{
    let d = m.side(pn, x);
    lemma_rotation_ready(m, x, pn, ch, s, s1);
    lemma_same_shape_chain(m, s, s1);
    lemma_promoted(m, pn, d);
    lemma_promoted_frame(m, s1, pn, d);
    let mp = m.promoted(pn, d);
    let sp = s1.promoted(pn, d);
    let r = m.rotated(x, pn);
    lemma_with_balances_shape(sp, s1.single_balances(pn, d));
    lemma_same_shape_chain(mp, sp, f);
    assert(m.rotation_top(pn, x) == ch);
    assert(f.nodes =~= r.nodes) by {
        assert forall|i: int| 0 <= i < f.nodes.len() implies f.nodes[i] == r.nodes[i] by {
            assert(f.nodes[i] == mp.nodes[i].with_balance(f.nodes[i].balance));
            if i != pn {
                lemma_balances_below_pivot(m, x, pn, ch, s, i);
                assert(s1.nodes[i].balance == s.nodes[i].balance);
            }
        }
    }
    assert(f == r);
    lemma_same_contents_sorted(m, mp);
    lemma_same_contents_indexed(m, mp);
    lemma_same_shape(mp, f);
    lemma_same_contents_chain(m, mp, f);
    assert forall|i: int| f.has(i) implies #[trigger] f.node_balanced(i) by {
        if i != pn {
            lemma_balances_below_pivot(m, x, pn, ch, s, i);
            assert(s1.nodes[i].balance == s.nodes[i].balance);
        }
    }
    assert(m.is_pivot(pn, x) && f == m.rotated(x, pn));
}

/// The climb ends in a double rotation.
pub proof fn lemma_rotated_double<V: PartialOrd, K>(
    m: TreeView<V, K>,
    x: int,
    pn: int,
    ch: int,
    s: TreeView<V, K>,
    s1: TreeView<V, K>,
    s2: TreeView<V, K>,
    f: TreeView<V, K>,
)
    requires
        m.wf(),
        m.has(x),
        m.nodes[x].balance == 0,
        m.climbing(x, ch, s),
        s.balanced(),
        m.nodes[ch].parent == Some(pn),
        s.rebalanced_at(pn, s1),
        m.tips(pn, x),
        m.zigzag(pn, x),
        s2.linked(),
        s2 == s1.promoted(ch, m.side(pn, x).opposite()).with_balances(
            s1.double_balances(pn, m.side(pn, x)),
        ),
        s2.nodes[pn].child(m.side(pn, x)) == m.nodes[ch].child(m.side(pn, x).opposite()),
        pn != ch,
        Some(pn) != m.nodes[ch].child(m.side(pn, x).opposite()),
        Some(ch) != m.nodes[ch].child(m.side(pn, x).opposite()),
        f.linked(),
        f == s2.promoted(pn, m.side(pn, x)).with_balances(
            s2.single_balances(pn, m.side(pn, x)),
        ),
    ensures
        f.wf(),
        m.settled(x, f),
        m.same_contents(f),
{
    let d = m.side(pn, x);
    let o = d.opposite();
    lemma_rotation_ready(m, x, pn, ch, s, s1);
    let g = m.nodes[ch].child(o).unwrap();
    lemma_same_shape_chain(m, s, s1);
    lemma_promoted(m, ch, o);
    lemma_promoted_frame(m, s1, ch, o);
    let m1 = m.promoted(ch, o);
    let sp1 = s1.promoted(ch, o);
    lemma_with_balances_shape(sp1, s1.double_balances(pn, d));
    lemma_same_shape_chain(m1, sp1, s2);
    assert(s2.nodes[pn] == m1.nodes[pn].with_balance(s2.nodes[pn].balance));
    assert(m1.nodes[pn].child(d) == Some(g));
    lemma_promoted(m1, pn, d);
    lemma_promoted_frame(m1, s2, pn, d);
    let m2 = m1.promoted(pn, d);
    let sp2 = s2.promoted(pn, d);
    let r = m.rotated(x, pn);
    lemma_with_balances_shape(sp2, s2.single_balances(pn, d));
    lemma_same_shape_chain(m2, sp2, f);
    assert(m.rotation_top(pn, x) == g);
    assert(f.nodes =~= r.nodes) by {
        assert forall|i: int| 0 <= i < f.nodes.len() implies f.nodes[i] == r.nodes[i] by {
            assert(f.nodes[i] == m2.nodes[i].with_balance(f.nodes[i].balance));
            if i != pn {
                lemma_balances_below_pivot(m, x, pn, ch, s, i);
                assert(s1.nodes[i].balance == s.nodes[i].balance);
            }
        }
    }
    assert(f == r);
    lemma_same_contents_sorted(m, m1);
    lemma_same_contents_indexed(m, m1);
    lemma_same_contents_sorted(m1, m2);
    lemma_same_contents_indexed(m1, m2);
    lemma_same_shape(m2, f);
    lemma_same_contents_chain(m, m1, m2);
    lemma_same_contents_chain(m, m2, f);
    assert forall|i: int| f.has(i) implies #[trigger] f.node_balanced(i) by {
        if i != pn {
            lemma_balances_below_pivot(m, x, pn, ch, s, i);
            assert(s1.nodes[i].balance == s.nodes[i].balance);
        }
    }
    assert(m.is_pivot(pn, x) && f == m.rotated(x, pn));
}

} // verus!
