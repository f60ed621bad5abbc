//! The three queries: exact node, exact route, longest match.

use vstd::prelude::*;
use crate::iter::NodeIter;
use crate::node::Node;
use crate::prefix::Prefix;
use crate::prefix::covers;
use crate::prefix::key;
use crate::prefix::lemma_key_eq;
use crate::prefix::valid;
use crate::shape::bit_of;
use crate::shape::has_key;
use crate::shape::holds;
use crate::shape::lemma_routes_at;
use crate::shape::lemma_descend;
use crate::shape::lemma_under_covers;
use crate::shape::lemma_under_top;
use crate::shape::node_ok;
use crate::shape::shape_ok;
use crate::shape::under;
use crate::tree::Ptree;

verus! {

/// Node `id` carries data and its prefix contains `p`.
pub open spec fn is_match<P: Prefix + Copy, D>(m: Map<usize, Node<P, D>>, id: usize, p: P) -> bool {
    m.dom().contains(id) && m[id].data is Some && covers(m[id].prefix, p)
}

/// How far a descent that stands at `cursor` can still go.
pub open spec fn budget<P: Prefix + Copy, D>(m: Map<usize, Node<P, D>>, cursor: Option<usize>) -> int {
    match cursor {
        Some(c) => 256 - m[c].prefix.spec_len(),
        None => 0,
    }
}

/// A node that contains `p` and lies below `c`, which is shorter than `p`, lies under
/// the child of `c` that `p` selects.
pub proof fn lemma_search_step<P: Prefix + Copy, D>(
    m: Map<usize, Node<P, D>>,
    top: Option<usize>,
    c: usize,
    p: P,
    id: usize,
)
    requires
        shape_ok(m, top),
        m.dom().contains(id),
        under(m, c, id),
        id != c,
        covers(m[id].prefix, p),
    ensures
        m[c].prefix.spec_len() < p.spec_len(),
        m[c].kid(bit_of(p, m[c].prefix.spec_len())) is Some,
        under(m, m[c].kid(bit_of(p, m[c].prefix.spec_len()))->0, id),
{
    lemma_descend(m, top, c, id);
}

/// A node that has a node containing `p` below it contains `p` itself.
pub proof fn lemma_search_end<P: Prefix + Copy, D>(
    m: Map<usize, Node<P, D>>,
    top: Option<usize>,
    c: usize,
    p: P,
    id: usize,
)
    requires
        shape_ok(m, top),
        m.dom().contains(id),
        under(m, c, id),
        covers(m[id].prefix, p),
    ensures
        covers(m[c].prefix, p),
{
    lemma_under_covers(m, top, c, id);
}

/// Whether `node` names a node whose prefix contains `prefix`.
pub(crate) fn node_match_prefix<P: Prefix + Copy, D>(
    tree: &Ptree<P, D>,
    node: Option<usize>,
    prefix: &P,
) -> (r: bool)
    requires
        valid(*prefix),
        node matches Some(c) ==> tree.nodes().dom().contains(c) && valid(tree.nodes()[c].prefix),
    ensures
        r == (node matches Some(c) && covers(tree.nodes()[c].prefix, *prefix)),
{
    match node {
        None => false,
        Some(c) => {
            let node = tree.node(c);
            node.prefix.prefix_len() <= prefix.prefix_len() && node.prefix.contains(prefix)
        },
    }
}

impl<P: Prefix + Copy, D> Ptree<P, D> {
    /// The node whose prefix has the key of `prefix`, whether or not it carries data.
    pub fn find(&self, prefix: &P) -> (r: NodeIter)
        requires
            self.wf(),
            valid(*prefix),
        ensures
            match r.node {
                Some(id) => has_key(self.nodes(), id, key(*prefix)),
                None => forall|id: usize| !has_key(self.nodes(), id, key(*prefix)),
            },
    {
        let ghost m = self.nodes();
        let ghost k = key(*prefix);
        let mut cursor = self.top();
        proof {
            P::width_fits();
            assert forall|id: usize| has_key(m, id, k) implies cursor is Some && under(
                m,
                cursor->0,
                id,
            ) by {
                lemma_under_top(m, self.root(), id);
            }
            if cursor is Some {
                assert(node_ok(m, self.root(), cursor->0));
            }
        }
        while node_match_prefix(self, cursor, prefix)
            invariant
                self.wf(),
                valid(*prefix),
                m == self.nodes(),
                k == key(*prefix),
                P::spec_width() <= 255,
                cursor matches Some(c) ==> m.dom().contains(c) && valid(m[c].prefix),
                forall|id: usize|
                    has_key(m, id, k) ==> cursor is Some && under(m, cursor->0, id),
            decreases budget(m, cursor),
        {
            let c = cursor.unwrap();
            let node = self.node(c);
            let nlen = node.prefix.prefix_len();
            if nlen == prefix.prefix_len() {
                proof {
                    lemma_key_eq(node.prefix, *prefix);
                }
                return NodeIter::from_node(c);
            }
            let next = node.child_with(prefix.bit_at(nlen));
            proof {
                assert(node_ok(m, self.root(), c));
                assert forall|id: usize| has_key(m, id, k) implies next is Some && under(
                    m,
                    next->0,
                    id,
                ) by {
                    lemma_key_eq(m[id].prefix, *prefix);
                    lemma_search_step(m, self.root(), c, *prefix, id);
                }
                if next is Some {
                    assert(node_ok(m, self.root(), next->0));
                }
            }
            cursor = next;
        }
        proof {
            assert forall|id: usize| !has_key(m, id, k) by {
                if has_key(m, id, k) {
                    lemma_key_eq(m[id].prefix, *prefix);
                    lemma_search_end(m, self.root(), cursor->0, *prefix, id);
                }
            }
        }
        NodeIter { node: None }
    }

    /// The node that stores the route of `prefix` itself, if there is such a route.
    pub fn lookup_exact(&self, prefix: &P) -> (r: NodeIter)
        requires
            self.wf(),
            valid(*prefix),
        ensures
            match r.node {
                Some(id) => has_key(self.nodes(), id, key(*prefix)) && self.nodes()[id].data
                    == Some(self@[key(*prefix)]),
                None => forall|id: usize| !holds(self.nodes(), id, key(*prefix)),
            },
            r.node is Some <==> self@.dom().contains(key(*prefix)),
    {
        let ghost m = self.nodes();
        let ghost k = key(*prefix);
        let mut cursor = self.top();
        proof {
            P::width_fits();
            assert forall|id: usize| has_key(m, id, k) implies cursor is Some && under(
                m,
                cursor->0,
                id,
            ) by {
                lemma_under_top(m, self.root(), id);
            }
            if cursor is Some {
                assert(node_ok(m, self.root(), cursor->0));
            }
        }
        while node_match_prefix(self, cursor, prefix)
            invariant
                self.wf(),
                valid(*prefix),
                m == self.nodes(),
                k == key(*prefix),
                P::spec_width() <= 255,
                cursor matches Some(c) ==> m.dom().contains(c) && valid(m[c].prefix),
                forall|id: usize|
                    has_key(m, id, k) ==> cursor is Some && under(m, cursor->0, id),
            decreases budget(m, cursor),
        {
            let c = cursor.unwrap();
            let node = self.node(c);
            let nlen = node.prefix.prefix_len();
            if nlen == prefix.prefix_len() {
                proof {
                    lemma_key_eq(node.prefix, *prefix);
                    assert forall|id: usize| has_key(m, id, k) implies id == c by {
                        lemma_key_eq(m[id].prefix, *prefix);
                        lemma_under_covers(m, self.root(), c, id);
                    }
                }
                if node.has_data() {
                    proof {
                        lemma_routes_at(m, self.root(), c);
                    }
                    return NodeIter::from_node(c);
                } else {
                    return NodeIter { node: None };
                }
            }
            let next = node.child_with(prefix.bit_at(nlen));
            proof {
                assert(node_ok(m, self.root(), c));
                assert forall|id: usize| has_key(m, id, k) implies next is Some && under(
                    m,
                    next->0,
                    id,
                ) by {
                    lemma_key_eq(m[id].prefix, *prefix);
                    lemma_search_step(m, self.root(), c, *prefix, id);
                }
                if next is Some {
                    assert(node_ok(m, self.root(), next->0));
                }
            }
            cursor = next;
        }
        proof {
            assert forall|id: usize| !has_key(m, id, k) by {
                if has_key(m, id, k) {
                    lemma_key_eq(m[id].prefix, *prefix);
                    lemma_search_end(m, self.root(), cursor->0, *prefix, id);
                }
            }
        }
        NodeIter { node: None }
    }

    /// The node with the longest prefix that contains `prefix` among those that carry
    /// data, if there is one.
    pub fn lookup(&self, prefix: &P) -> (r: NodeIter)
        requires
            self.wf(),
            valid(*prefix),
        ensures
            match r.node {
                Some(id) => is_match(self.nodes(), id, *prefix) && forall|o: usize|
                    is_match(self.nodes(), o, *prefix) ==> self.nodes()[o].prefix.spec_len()
                        <= self.nodes()[id].prefix.spec_len(),
                None => forall|o: usize| !is_match(self.nodes(), o, *prefix),
            },
    {
        let ghost m = self.nodes();
        let mut cursor = self.top();
        let mut matched: Option<usize> = None;
        proof {
            P::width_fits();
            assert forall|o: usize| is_match(m, o, *prefix) implies cursor is Some && under(
                m,
                cursor->0,
                o,
            ) by {
                lemma_under_top(m, self.root(), o);
            }
            if cursor is Some {
                assert(node_ok(m, self.root(), cursor->0));
            }
        }
        while node_match_prefix(self, cursor, prefix)
            invariant
                self.wf(),
                valid(*prefix),
                m == self.nodes(),
                P::spec_width() <= 255,
                cursor matches Some(c) ==> m.dom().contains(c) && valid(m[c].prefix),
                matched matches Some(b) ==> is_match(m, b, *prefix) && (cursor matches Some(c)
                    ==> m[b].prefix.spec_len() < m[c].prefix.spec_len()),
                forall|o: usize|
                    is_match(m, o, *prefix) ==> (cursor is Some && under(m, cursor->0, o)) || (
                    matched is Some && m[o].prefix.spec_len() <= m[matched->0].prefix.spec_len()),
            decreases budget(m, cursor),
        {
            let c = cursor.unwrap();
            let node = self.node(c);
            if node.has_data() {
                matched = Some(c);
            }
            let nlen = node.prefix.prefix_len();
            if nlen == prefix.prefix_len() {
                proof {
                    assert forall|o: usize| is_match(m, o, *prefix) implies matched is Some
                        && m[o].prefix.spec_len() <= m[matched->0].prefix.spec_len() by {
                        if under(m, c, o) {
                            lemma_under_covers(m, self.root(), c, o);
                        }
                    }
                }
                return NodeIter { node: matched };
            }
            let next = node.child_with(prefix.bit_at(nlen));
            proof {
                assert(node_ok(m, self.root(), c));
                assert forall|o: usize| is_match(m, o, *prefix) implies (next is Some && under(
                    m,
                    next->0,
                    o,
                )) || (matched is Some && m[o].prefix.spec_len()
                    <= m[matched->0].prefix.spec_len()) by {
                    if under(m, c, o) && o != c {
                        lemma_search_step(m, self.root(), c, *prefix, o);
                    }
                }
                if next is Some {
                    assert(node_ok(m, self.root(), next->0));
                }
            }
            cursor = next;
        }
        proof {
            assert forall|o: usize| is_match(m, o, *prefix) implies matched is Some
                && m[o].prefix.spec_len() <= m[matched->0].prefix.spec_len() by {
                if cursor is Some && under(m, cursor->0, o) {
                    lemma_search_end(m, self.root(), cursor->0, *prefix, o);
                }
            }
        }
        NodeIter { node: matched }
    }
}

} // verus!
