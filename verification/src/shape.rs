//! What makes a set of linked nodes a trie, and what follows from it.

use vstd::prelude::*;
use crate::node::Node;
use crate::prefix::Prefix;
use crate::prefix::covers;
use crate::prefix::key;
use crate::prefix::lemma_key_eq;
use crate::prefix::valid;

verus! {

/// The address bit of `p` at offset `i`, as 0 or 1.
pub open spec fn bit_of<P: Prefix>(p: P, i: nat) -> int {
    if p.spec_bit(i as int) {
        1
    } else {
        0
    }
}

/// Slot `b` of node `id` is empty, or it holds a node that names `id` as its parent,
/// has a longer prefix within that of `id`, and continues it with bit `b`.
pub open spec fn child_ok<P: Prefix + Copy, D>(m: Map<usize, Node<P, D>>, id: usize, b: int) -> bool {
    match m[id].kid(b) {
        None => true,
        Some(c) => {
            &&& m.dom().contains(c)
            &&& m[c].parent == Some(id)
            &&& m[id].prefix.spec_len() < m[c].prefix.spec_len()
            &&& covers(m[id].prefix, m[c].prefix)
            &&& bit_of(m[c].prefix, m[id].prefix.spec_len()) == b
        },
    }
}

/// Node `id` is the root, or it sits in a slot of the node it names as its parent.
pub open spec fn parent_ok<P: Prefix + Copy, D>(
    m: Map<usize, Node<P, D>>,
    top: Option<usize>,
    id: usize,
) -> bool {
    match m[id].parent {
        None => top == Some(id),
        Some(p) => m.dom().contains(p) && (m[p].kid(0) == Some(id) || m[p].kid(1) == Some(id)),
    }
}

/// Node `id` has a valid prefix and consistent links in both directions.
pub open spec fn node_ok<P: Prefix + Copy, D>(
    m: Map<usize, Node<P, D>>,
    top: Option<usize>,
    id: usize,
) -> bool {
    &&& valid(m[id].prefix)
    &&& child_ok(m, id, 0)
    &&& child_ok(m, id, 1)
    &&& parent_ok(m, top, id)
}

/// The nodes `m` with root `top` form a trie.
pub open spec fn shape_ok<P: Prefix + Copy, D>(m: Map<usize, Node<P, D>>, top: Option<usize>) -> bool {
    &&& top matches Some(r) ==> m.dom().contains(r) && m[r].parent is None
    &&& forall|id: usize| m.dom().contains(id) ==> #[trigger] node_ok(m, top, id)
}

/// Node `id` is a node of `m` whose prefix has key `k`.
pub open spec fn has_key<P: Prefix + Copy, D>(m: Map<usize, Node<P, D>>, id: usize, k: Seq<bool>) -> bool {
    m.dom().contains(id) && key(m[id].prefix) == k
}

/// Node `id` is `a` or lies below it.
pub open spec fn under<P: Prefix + Copy, D>(m: Map<usize, Node<P, D>>, a: usize, id: usize) -> bool
    decreases m[id].prefix.spec_len(),
{
    id == a || match m[id].parent {
        Some(p) => m[p].prefix.spec_len() < m[id].prefix.spec_len() && under(m, a, p),
        None => false,
    }
}

/// A node with a parent sits in the slot of the parent that its own prefix selects.
pub proof fn lemma_parent_link<P: Prefix + Copy, D>(
    m: Map<usize, Node<P, D>>,
    top: Option<usize>,
    id: usize,
)
    requires
        shape_ok(m, top),
        m.dom().contains(id),
        m[id].parent is Some,
    ensures
        ({
            let p = m[id].parent->0;
            &&& m.dom().contains(p)
            &&& m[p].prefix.spec_len() < m[id].prefix.spec_len()
            &&& covers(m[p].prefix, m[id].prefix)
            &&& m[p].kid(bit_of(m[id].prefix, m[p].prefix.spec_len())) == Some(id)
        }),
{
    let p = m[id].parent->0;
    assert(node_ok(m, top, id));
    assert(node_ok(m, top, p));
}

/// A node contains every node below it, and is strictly shorter than each of them.
pub proof fn lemma_under_covers<P: Prefix + Copy, D>(
    m: Map<usize, Node<P, D>>,
    top: Option<usize>,
    a: usize,
    id: usize,
)
    requires
        shape_ok(m, top),
        m.dom().contains(id),
        under(m, a, id),
    ensures
        m.dom().contains(a),
        covers(m[a].prefix, m[id].prefix),
        a != id ==> m[a].prefix.spec_len() < m[id].prefix.spec_len(),
    decreases m[id].prefix.spec_len(),
{
    if id != a {
        let p = m[id].parent->0;
        lemma_parent_link(m, top, id);
        lemma_under_covers(m, top, a, p);
    }
}

/// Every node lies under the root.
pub proof fn lemma_under_top<P: Prefix + Copy, D>(
    m: Map<usize, Node<P, D>>,
    top: Option<usize>,
    id: usize,
)
    requires
        shape_ok(m, top),
        m.dom().contains(id),
    ensures
        top is Some,
        under(m, top->0, id),
    decreases m[id].prefix.spec_len(),
{
    assert(node_ok(m, top, id));
    if m[id].parent is Some {
        let p = m[id].parent->0;
        lemma_parent_link(m, top, id);
        lemma_under_top(m, top, p);
    }
}

/// A node strictly below `c` lies under the child of `c` that its own prefix selects.
pub proof fn lemma_descend<P: Prefix + Copy, D>(
    m: Map<usize, Node<P, D>>,
    top: Option<usize>,
    c: usize,
    id: usize,
)
    requires
        shape_ok(m, top),
        m.dom().contains(id),
        under(m, c, id),
        id != c,
    ensures
        m.dom().contains(c),
        m[c].prefix.spec_len() < m[id].prefix.spec_len(),
        m[c].kid(bit_of(m[id].prefix, m[c].prefix.spec_len())) is Some,
        under(m, m[c].kid(bit_of(m[id].prefix, m[c].prefix.spec_len()))->0, id),
    decreases m[id].prefix.spec_len(),
{
    let p = m[id].parent->0;
    lemma_parent_link(m, top, id);
    if p != c {
        lemma_descend(m, top, c, p);
    }
}

/// Below one node, two nodes with the same key are the same node.
pub proof fn lemma_unique_under<P: Prefix + Copy, D>(
    m: Map<usize, Node<P, D>>,
    top: Option<usize>,
    c: usize,
    a: usize,
    b: usize,
)
    requires
        shape_ok(m, top),
        m.dom().contains(a),
        m.dom().contains(b),
        under(m, c, a),
        under(m, c, b),
        key(m[a].prefix) == key(m[b].prefix),
    ensures
        a == b,
    decreases m[a].prefix.spec_len() - m[c].prefix.spec_len(),
{
    lemma_key_eq(m[a].prefix, m[b].prefix);
    lemma_under_covers(m, top, c, a);
    lemma_under_covers(m, top, c, b);
    if a != c && b != c {
        lemma_descend(m, top, c, a);
        lemma_descend(m, top, c, b);
        let n = m[c].prefix.spec_len();
        let ch = m[c].kid(bit_of(m[a].prefix, n))->0;
        lemma_under_covers(m, top, ch, a);
        assert(node_ok(m, top, c));
        lemma_unique_under(m, top, ch, a, b);
    }
}

/// Below one node, a node lies under every node that contains it.
pub proof fn lemma_covers_under_from<P: Prefix + Copy, D>(
    m: Map<usize, Node<P, D>>,
    top: Option<usize>,
    c: usize,
    a: usize,
    b: usize,
)
    requires
        shape_ok(m, top),
        m.dom().contains(a),
        m.dom().contains(b),
        under(m, c, a),
        under(m, c, b),
        covers(m[a].prefix, m[b].prefix),
    ensures
        under(m, a, b),
    decreases m[a].prefix.spec_len() - m[c].prefix.spec_len(),
{
    if a != c {
        lemma_descend(m, top, c, a);
        lemma_descend(m, top, c, b);
        let n = m[c].prefix.spec_len();
        let ch = m[c].kid(bit_of(m[a].prefix, n))->0;
        lemma_under_covers(m, top, ch, a);
        assert(node_ok(m, top, c));
        lemma_covers_under_from(m, top, ch, a, b);
    }
}

/// In a trie, a node lies under every node that contains it.
pub proof fn lemma_covers_under<P: Prefix + Copy, D>(
    m: Map<usize, Node<P, D>>,
    top: Option<usize>,
    a: usize,
    b: usize,
)
    requires
        shape_ok(m, top),
        m.dom().contains(a),
        m.dom().contains(b),
        covers(m[a].prefix, m[b].prefix),
    ensures
        under(m, a, b),
{
    lemma_under_top(m, top, a);
    lemma_under_top(m, top, b);
    lemma_covers_under_from(m, top, top->0, a, b);
}

/// A node that has a longer node within its prefix has a child.
pub proof fn lemma_inner_has_child<P: Prefix + Copy, D>(
    m: Map<usize, Node<P, D>>,
    top: Option<usize>,
    a: usize,
    b: usize,
)
    requires
        shape_ok(m, top),
        m.dom().contains(a),
        m.dom().contains(b),
        covers(m[a].prefix, m[b].prefix),
        m[a].prefix.spec_len() < m[b].prefix.spec_len(),
    ensures
        m[a].kid(0) is Some || m[a].kid(1) is Some,
{
    lemma_covers_under(m, top, a, b);
    lemma_descend(m, top, a, b);
}

/// No two nodes of a trie have the same key.
pub proof fn lemma_unique<P: Prefix + Copy, D>(
    m: Map<usize, Node<P, D>>,
    top: Option<usize>,
    a: usize,
    b: usize,
)
    requires
        shape_ok(m, top),
        m.dom().contains(a),
        m.dom().contains(b),
        key(m[a].prefix) == key(m[b].prefix),
    ensures
        a == b,
{
    lemma_under_top(m, top, a);
    lemma_under_top(m, top, b);
    lemma_unique_under(m, top, top->0, a, b);
}

/// Node `id` is a node of `m` that carries data under key `k`.
pub open spec fn holds<P: Prefix + Copy, D>(m: Map<usize, Node<P, D>>, id: usize, k: Seq<bool>) -> bool {
    has_key(m, id, k) && m[id].data is Some
}

/// The routes that the nodes `m` store: the data of each node that has some, by the
/// key of its prefix.
pub open spec fn routes<P: Prefix + Copy, D>(m: Map<usize, Node<P, D>>) -> Map<Seq<bool>, D> {
    Map::new(
        |k: Seq<bool>| exists|id: usize| holds(m, id, k),
        |k: Seq<bool>| m[choose|id: usize| holds(m, id, k)].data->0,
    )
}

/// The data of a node of a trie is the route stored under the node's key.
pub proof fn lemma_routes_at<P: Prefix + Copy, D>(
    m: Map<usize, Node<P, D>>,
    top: Option<usize>,
    id: usize,
)
    requires
        shape_ok(m, top),
        m.dom().contains(id),
        m[id].data is Some,
    ensures
        routes(m).dom().contains(key(m[id].prefix)),
        routes(m)[key(m[id].prefix)] == m[id].data->0,
{
    let k = key(m[id].prefix);
    assert(holds(m, id, k));
    let other = choose|o: usize| holds(m, o, k);
    lemma_unique(m, top, id, other);
}

/// Two tries store the same routes if every node of the first is a node of the
/// second with the same prefix and data, and the second has no data elsewhere.
pub proof fn lemma_routes_kept<P: Prefix + Copy, D>(
    m0: Map<usize, Node<P, D>>,
    top0: Option<usize>,
    m1: Map<usize, Node<P, D>>,
    top1: Option<usize>,
)
    requires
        shape_ok(m0, top0),
        shape_ok(m1, top1),
        forall|x: usize|
            m0.dom().contains(x) && m0[x].data is Some ==> #[trigger] m1.dom().contains(x)
                && m1[x].prefix == m0[x].prefix && m1[x].data == m0[x].data,
        forall|x: usize|
            #[trigger] m1.dom().contains(x) && m1[x].data is Some ==> m0.dom().contains(x)
                && m0[x].data is Some,
    ensures
        routes(m1) == routes(m0),
{
    assert forall|k: Seq<bool>| #[trigger]
        routes(m0).dom().contains(k) implies routes(m1).dom().contains(k) && routes(m1)[k]
        == routes(m0)[k] by {
        let id = choose|id: usize| holds(m0, id, k);
        assert(m1.dom().contains(id));
        lemma_routes_at(m1, top1, id);
    }
    assert forall|k: Seq<bool>| #[trigger]
        routes(m1).dom().contains(k) implies routes(m0).dom().contains(k) by {
        let id = choose|id: usize| holds(m1, id, k);
        assert(holds(m0, id, k));
    }
}

/// Every node of `m` has data or a child.
pub open spec fn all_occupied<P: Prefix + Copy, D>(m: Map<usize, Node<P, D>>) -> bool {
    forall|id: usize| m.dom().contains(id) ==> #[trigger] m[id].occupied()
}

/// The nodes `m1` are the nodes `m0` with the data of node `id` set to `d` and
/// nothing else changed.
pub open spec fn data_set<P: Prefix + Copy, D>(
    m0: Map<usize, Node<P, D>>,
    m1: Map<usize, Node<P, D>>,
    id: usize,
    d: D,
) -> bool {
    &&& m1.dom() == m0.dom()
    &&& forall|x: usize| m0.dom().contains(x) && x != id ==> #[trigger] m1[x] == m0[x]
    &&& m1[id].same_place(m0[id])
    &&& m1[id].data == Some(d)
}

/// The nodes `m1` are the nodes `m0` with the data of node `id` taken away and
/// nothing else changed.
pub open spec fn data_cleared<P: Prefix + Copy, D>(
    m0: Map<usize, Node<P, D>>,
    m1: Map<usize, Node<P, D>>,
    id: usize,
) -> bool {
    &&& m1.dom() == m0.dom()
    &&& forall|x: usize| m0.dom().contains(x) && x != id ==> #[trigger] m1[x] == m0[x]
    &&& m1[id].same_place(m0[id])
    &&& m1[id].data is None
}

/// Changing the data of one node leaves a trie a trie, and sets or removes the route
/// under that node's key.
pub proof fn lemma_data_changed<P: Prefix + Copy, D>(
    m0: Map<usize, Node<P, D>>,
    top: Option<usize>,
    m1: Map<usize, Node<P, D>>,
    id: usize,
)
    requires
        shape_ok(m0, top),
        m0.dom().contains(id),
        m1.dom() == m0.dom(),
        forall|x: usize| m0.dom().contains(x) && x != id ==> #[trigger] m1[x] == m0[x],
        m1[id].same_place(m0[id]),
    ensures
        shape_ok(m1, top),
        routes(m1) == match m1[id].data {
            Some(d) => routes(m0).insert(key(m0[id].prefix), d),
            None => routes(m0).remove(key(m0[id].prefix)),
        },
{
    assert forall|x: usize| m1.dom().contains(x) implies #[trigger] node_ok(m1, top, x) by {
        assert(node_ok(m0, top, x));
    }
    let k0 = key(m0[id].prefix);
    let want = match m1[id].data {
        Some(d) => routes(m0).insert(k0, d),
        None => routes(m0).remove(k0),
    };
    assert forall|k: Seq<bool>| #[trigger]
        routes(m1).dom().contains(k) implies want.dom().contains(k) && routes(m1)[k]
        == want[k] by {
        let x = choose|x: usize| holds(m1, x, k);
        if x != id {
            lemma_routes_at(m0, top, x);
            if k == k0 {
                lemma_unique(m0, top, x, id);
            }
        }
    }
    assert forall|k: Seq<bool>| #[trigger]
        want.dom().contains(k) implies routes(m1).dom().contains(k) by {
        if k == k0 {
            assert(holds(m1, id, k));
        } else {
            let x = choose|x: usize| holds(m0, x, k);
            assert(holds(m1, x, k));
        }
    }
}

/// Where node `id` loses its data or leaves, together with nodes that had none, and
/// every other node keeps its prefix and data, the route under the key of `id` goes
/// and the others stay.
pub proof fn lemma_routes_removed<P: Prefix + Copy, D>(
    m0: Map<usize, Node<P, D>>,
    top0: Option<usize>,
    m1: Map<usize, Node<P, D>>,
    top1: Option<usize>,
    id: usize,
)
    requires
        shape_ok(m0, top0),
        shape_ok(m1, top1),
        m0.dom().contains(id),
        forall|x: usize| #[trigger]
            m1.dom().contains(x) ==> m0.dom().contains(x) && m1[x].prefix == m0[x].prefix && (x
                != id ==> m1[x].data == m0[x].data),
        forall|x: usize|
            m0.dom().contains(x) && !(#[trigger] m1.dom().contains(x)) && x != id
                ==> m0[x].data is None,
        m1.dom().contains(id) ==> m1[id].data is None,
    ensures
        routes(m1) == routes(m0).remove(key(m0[id].prefix)),
{
    let k0 = key(m0[id].prefix);
    let want = routes(m0).remove(k0);
    assert forall|k: Seq<bool>| #[trigger]
        routes(m1).dom().contains(k) implies want.dom().contains(k) && routes(m1)[k]
        == want[k] by {
        let x = choose|x: usize| holds(m1, x, k);
        assert(holds(m0, x, k));
        lemma_routes_at(m1, top1, x);
        lemma_routes_at(m0, top0, x);
        if k == k0 {
            lemma_unique(m0, top0, x, id);
        }
    }
    assert forall|k: Seq<bool>| #[trigger]
        want.dom().contains(k) implies routes(m1).dom().contains(k) by {
        let x = choose|x: usize| holds(m0, x, k);
        assert(holds(m1, x, k));
    }
}

} // verus!
