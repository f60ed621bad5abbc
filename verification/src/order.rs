//! The order in which a trie is walked: a node, then all below its left slot, then
//! all below its right slot.

use vstd::prelude::*;
use crate::node::Node;
use crate::prefix::Prefix;
use crate::shape::lemma_parent_link;
use crate::shape::lemma_under_covers;
use crate::shape::node_ok;
use crate::shape::shape_ok;
use crate::shape::under;

verus! {

/// The walk below slot `b` of node `id`.
pub open spec fn walk_slot<P: Prefix + Copy, D>(m: Map<usize, Node<P, D>>, id: usize, b: int) -> Seq<
    usize,
>
    decreases 256 - m[id].prefix.spec_len(), 0nat,
{
    match m[id].kid(b) {
        Some(c) => if m[id].prefix.spec_len() < m[c].prefix.spec_len() <= 255 {
            walk(m, c)
        } else {
            Seq::empty()
        },
        None => Seq::empty(),
    }
}

/// Node `id` and the nodes below it, in walking order.
pub open spec fn walk<P: Prefix + Copy, D>(m: Map<usize, Node<P, D>>, id: usize) -> Seq<usize>
    decreases 256 - m[id].prefix.spec_len(), 1nat,
{
    if m[id].prefix.spec_len() <= 255 {
        seq![id] + walk_slot(m, id, 0) + walk_slot(m, id, 1)
    } else {
        seq![id]
    }
}

/// All nodes of the trie in walking order.
pub open spec fn order<P: Prefix + Copy, D>(m: Map<usize, Node<P, D>>, top: Option<usize>) -> Seq<usize> {
    match top {
        Some(r) => walk(m, r),
        None => Seq::empty(),
    }
}

/// The node that the walk turns to once it is done with `id` and all below it.
pub open spec fn after<P: Prefix + Copy, D>(m: Map<usize, Node<P, D>>, id: usize) -> Option<usize>
    decreases m[id].prefix.spec_len(),
{
    match m[id].parent {
        None => None,
        Some(p) => if m[p].kid(0) == Some(id) && m[p].kid(1) is Some {
            m[p].kid(1)
        } else if m[p].prefix.spec_len() < m[id].prefix.spec_len() {
            after(m, p)
        } else {
            None
        },
    }
}

/// The node that the walk turns to from `id`.
pub open spec fn step<P: Prefix + Copy, D>(m: Map<usize, Node<P, D>>, id: usize) -> Option<usize> {
    if m[id].kid(0) is Some {
        m[id].kid(0)
    } else if m[id].kid(1) is Some {
        m[id].kid(1)
    } else {
        after(m, id)
    }
}

/// The element of `s` at index `j`, if there is one.
pub open spec fn at<A>(s: Seq<A>, j: int) -> Option<A> {
    if 0 <= j < s.len() {
        Some(s[j])
    } else {
        None
    }
}

/// In a trie, the walk below a slot is the walk of the child in it.
pub proof fn lemma_walk_slot<P: Prefix + Copy, D>(
    m: Map<usize, Node<P, D>>,
    top: Option<usize>,
    id: usize,
    b: int,
)
    requires
        shape_ok(m, top),
        P::spec_width() <= 255,
        m.dom().contains(id),
        b == 0 || b == 1,
    ensures
        walk_slot(m, id, b) == match m[id].kid(b) {
            Some(c) => walk(m, c),
            None => Seq::empty(),
        },
        walk(m, id) == seq![id] + walk_slot(m, id, 0) + walk_slot(m, id, 1),
        m[id].kid(b) matches Some(c) ==> m.dom().contains(c) && walk(m, c).len() > 0 && walk(
            m,
            c,
        )[0] == c,
        walk(m, id).len() > 0 && walk(m, id)[0] == id,
{
    assert(node_ok(m, top, id));
    if m[id].kid(b) is Some {
        let c = m[id].kid(b)->0;
        assert(node_ok(m, top, c));
    }
}

/// Every element of the walk of a node is a node at or below it.
pub proof fn lemma_walk_under<P: Prefix + Copy, D>(
    m: Map<usize, Node<P, D>>,
    top: Option<usize>,
    a: usize,
    j: int,
)
    requires
        shape_ok(m, top),
        P::spec_width() <= 255,
        m.dom().contains(a),
        0 <= j < walk(m, a).len(),
    ensures
        m.dom().contains(walk(m, a)[j]),
        under(m, a, walk(m, a)[j]),
        j > 0 ==> walk(m, a)[j] != a,
    decreases 256 - m[a].prefix.spec_len(),
{
    assert(node_ok(m, top, a));
    let l = walk_slot(m, a, 0);
    let x = walk(m, a)[j];
    if 0 < j < 1 + l.len() {
        let c = m[a].kid(0)->0;
        lemma_walk_under(m, top, c, j - 1);
        lemma_under_below(m, top, a, c, x);
    } else if 0 < j {
        let c = m[a].kid(1)->0;
        lemma_walk_under(m, top, c, j - 1 - l.len());
        lemma_under_below(m, top, a, c, x);
    }
}

/// What lies under a child lies under its parent.
pub proof fn lemma_under_below<P: Prefix + Copy, D>(
    m: Map<usize, Node<P, D>>,
    top: Option<usize>,
    a: usize,
    c: usize,
    x: usize,
)
    requires
        shape_ok(m, top),
        m.dom().contains(c),
        m.dom().contains(x),
        m[c].parent == Some(a),
        under(m, c, x),
    ensures
        under(m, a, x),
        x != a,
    decreases m[x].prefix.spec_len(),
{
    lemma_parent_link(m, top, c);
    lemma_under_covers(m, top, c, x);
    if x != c {
        let p = m[x].parent->0;
        lemma_parent_link(m, top, x);
        lemma_under_below(m, top, a, c, p);
    } else {
        assert(under(m, a, a));
    }
}

/// No node occurs twice in a walk.
pub proof fn lemma_walk_distinct<P: Prefix + Copy, D>(
    m: Map<usize, Node<P, D>>,
    top: Option<usize>,
    a: usize,
    i: int,
    j: int,
)
    requires
        shape_ok(m, top),
        P::spec_width() <= 255,
        m.dom().contains(a),
        0 <= i < j < walk(m, a).len(),
    ensures
        walk(m, a)[i] != walk(m, a)[j],
    decreases 256 - m[a].prefix.spec_len(),
{
    assert(node_ok(m, top, a));
    let l = walk_slot(m, a, 0);
    lemma_walk_under(m, top, a, j);
    if 0 < i && j < 1 + l.len() {
        let c = m[a].kid(0)->0;
        lemma_walk_distinct(m, top, c, i - 1, j - 1);
    } else if i >= 1 + l.len() {
        let c = m[a].kid(1)->0;
        lemma_walk_distinct(m, top, c, i - 1 - l.len(), j - 1 - l.len());
    } else if 0 < i {
        let c0 = m[a].kid(0)->0;
        let c1 = m[a].kid(1)->0;
        let x = walk(m, a)[i];
        let y = walk(m, a)[j];
        lemma_walk_under(m, top, c0, i - 1);
        lemma_walk_under(m, top, c1, j - 1 - l.len());
        lemma_under_covers(m, top, c0, x);
        lemma_under_covers(m, top, c1, y);
    }
}

/// The index at which `x` stands in `s`.
pub open spec fn pos(s: Seq<usize>, x: usize) -> int {
    choose|i: int| 0 <= i < s.len() && s[i] == x
}

/// The walk of a node is a stretch of the whole order, and what follows the stretch
/// is what the walk turns to after the node. Returns where the stretch begins.
pub proof fn lemma_block<P: Prefix + Copy, D>(
    m: Map<usize, Node<P, D>>,
    top: Option<usize>,
    id: usize,
) -> (i: int)
    requires
        shape_ok(m, top),
        P::spec_width() <= 255,
        m.dom().contains(id),
    ensures
        0 <= i,
        i + walk(m, id).len() <= order(m, top).len(),
        order(m, top).subrange(i, i + walk(m, id).len()) == walk(m, id),
        at(order(m, top), i + walk(m, id).len()) == after(m, id),
    decreases m[id].prefix.spec_len(),
{
    assert(node_ok(m, top, id));
    let o = order(m, top);
    match m[id].parent {
        None => {
            0
        },
        Some(p) => {
            lemma_parent_link(m, top, id);
            let ip = lemma_block(m, top, p);
            lemma_walk_slot(m, top, p, 1);
            let wp = walk(m, p);
            let l = walk_slot(m, p, 0);
            let r = walk_slot(m, p, 1);
            let ll = l.len() as int;
            let rl = r.len() as int;
            let wl = wp.len() as int;
            if m[p].kid(0) == Some(id) {
                let i = ip + 1;
                assert(o.subrange(i, i + ll) =~= wp.subrange(1, 1 + ll));
                if m[p].kid(1) is Some {
                    assert(o[i + ll] == wp[1 + ll]);
                }
                i
            } else {
                let i = ip + 1 + ll;
                assert(o.subrange(i, i + rl) =~= wp.subrange(1 + ll, wl));
                i
            }
        },
    }
}

/// Every node of a trie stands in the order, at one index only.
pub proof fn lemma_pos<P: Prefix + Copy, D>(m: Map<usize, Node<P, D>>, top: Option<usize>, id: usize)
    requires
        shape_ok(m, top),
        P::spec_width() <= 255,
        m.dom().contains(id),
    ensures
        0 <= pos(order(m, top), id) < order(m, top).len(),
        order(m, top)[pos(order(m, top), id)] == id,
        forall|j: int|
            0 <= j < order(m, top).len() && #[trigger] order(m, top)[j] == id ==> j == pos(
                order(m, top),
                id,
            ),
        order(m, top).subrange(
            pos(order(m, top), id),
            pos(order(m, top), id) + walk(m, id).len(),
        ) == walk(m, id),
        pos(order(m, top), id) + walk(m, id).len() <= order(m, top).len(),
        at(order(m, top), pos(order(m, top), id) + walk(m, id).len()) == after(m, id),
{
    let o = order(m, top);
    let i = lemma_block(m, top, id);
    lemma_walk_slot(m, top, id, 0);
    assert forall|j: int| 0 <= j < o.len() && #[trigger] o[j] == id implies j == i by {
        if j < i {
            lemma_walk_distinct(m, top, top->0, j, i);
        } else if i < j {
            lemma_walk_distinct(m, top, top->0, i, j);
        }
    }
}

/// Every element of the order is a node of the trie.
pub proof fn lemma_order_live<P: Prefix + Copy, D>(
    m: Map<usize, Node<P, D>>,
    top: Option<usize>,
    j: int,
)
    requires
        shape_ok(m, top),
        P::spec_width() <= 255,
        0 <= j < order(m, top).len(),
    ensures
        m.dom().contains(order(m, top)[j]),
{
    lemma_walk_under(m, top, top->0, j);
}

/// What is left of the order from the position `c` on: from node `c` to the end, or
/// nothing where `c` is no node of the trie.
pub open spec fn tail_from<P: Prefix + Copy, D>(
    m: Map<usize, Node<P, D>>,
    top: Option<usize>,
    c: Option<usize>,
) -> Seq<usize> {
    match c {
        Some(id) => if m.dom().contains(id) {
            order(m, top).skip(pos(order(m, top), id))
        } else {
            Seq::empty()
        },
        None => Seq::empty(),
    }
}

/// From a node, the walk turns to the node that follows it in the order.
pub proof fn lemma_step_tail<P: Prefix + Copy, D>(
    m: Map<usize, Node<P, D>>,
    top: Option<usize>,
    id: usize,
)
    requires
        shape_ok(m, top),
        P::spec_width() <= 255,
        m.dom().contains(id),
    ensures
        tail_from(m, top, Some(id)).len() > 0,
        tail_from(m, top, Some(id))[0] == id,
        step(m, id) matches Some(s) ==> m.dom().contains(s),
        tail_from(m, top, step(m, id)) == tail_from(m, top, Some(id)).skip(1),
{
    let o = order(m, top);
    lemma_pos(m, top, id);
    let i = pos(o, id);
    lemma_walk_slot(m, top, id, 0);
    lemma_walk_slot(m, top, id, 1);
    let w = walk(m, id);
    if w.len() > 1 {
        let s = step(m, id)->0;
        assert(w[1] == s);
        lemma_pos(m, top, s);
    } else {
        if after(m, id) is Some {
            let s = after(m, id)->0;
            lemma_order_live(m, top, i + 1);
            lemma_pos(m, top, s);
        }
    }
}

/// The walk of a node depends only on how the nodes are linked.
pub proof fn lemma_walk_same<P: Prefix + Copy, D>(
    m0: Map<usize, Node<P, D>>,
    m1: Map<usize, Node<P, D>>,
    top: Option<usize>,
    a: usize,
)
    requires
        shape_ok(m0, top),
        shape_ok(m1, top),
        P::spec_width() <= 255,
        m0.dom().contains(a),
        m1.dom() == m0.dom(),
        forall|x: usize| m0.dom().contains(x) ==> (#[trigger] m1[x]).same_place(m0[x]),
    ensures
        walk(m1, a) == walk(m0, a),
    decreases 256 - m0[a].prefix.spec_len(),
{
    lemma_walk_slot(m0, top, a, 0);
    lemma_walk_slot(m0, top, a, 1);
    if m0[a].kid(0) is Some {
        lemma_walk_same(m0, m1, top, m0[a].kid(0)->0);
    }
    if m0[a].kid(1) is Some {
        lemma_walk_same(m0, m1, top, m0[a].kid(1)->0);
    }
}

} // verus!
