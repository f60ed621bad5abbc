//! Insertion: finding the place of a prefix and linking its node in.

use vstd::prelude::*;
use crate::iter::NodeIter;
use crate::lookup::budget;
use crate::lookup::lemma_search_end;
use crate::lookup::lemma_search_step;
use crate::lookup::node_match_prefix;
use crate::node::Node;
use crate::prefix::Prefix;
use crate::prefix::covers;
use crate::prefix::is_common;
use crate::prefix::key;
use crate::prefix::lemma_common_below;
use crate::prefix::lemma_key_eq;
use crate::prefix::valid;
use crate::shape::bit_of;
use crate::shape::data_set;
use crate::shape::has_key;
use crate::shape::all_occupied;
use crate::shape::lemma_data_changed;
use crate::shape::lemma_inner_has_child;
use crate::shape::lemma_routes_kept;
use crate::shape::lemma_unique;
use crate::shape::lemma_under_top;
use crate::shape::node_ok;
use crate::shape::shape_ok;
use crate::shape::under;
use crate::tree::Ptree;

verus! {

/// Links `child` into the slot of `parent` that the prefix of `child` selects.
pub(crate) fn set_child<P: Prefix + Copy, D>(tree: &mut Ptree<P, D>, parent: usize, child: usize)
    requires
        old(tree).nodes().dom().contains(parent),
        old(tree).nodes().dom().contains(child),
        parent != child,
        valid(old(tree).nodes()[child].prefix),
        old(tree).nodes()[parent].prefix.spec_len() < old(tree).nodes()[child].prefix.spec_len(),
    ensures
        final(tree).nodes().dom() == old(tree).nodes().dom(),
        final(tree).root() == old(tree).root(),
        final(tree).store_ok() == old(tree).store_ok(),
        forall|x: usize|
            x != parent && x != child ==> #[trigger] final(tree).nodes()[x] == old(tree).nodes()[x],
        final(tree).nodes()[parent].relinked(
            old(tree).nodes()[parent],
            bit_of(
                old(tree).nodes()[child].prefix,
                old(tree).nodes()[parent].prefix.spec_len(),
            ),
            Some(child),
        ),
        final(tree).nodes()[child].reparented(old(tree).nodes()[child], Some(parent)),
{
    proof {
        P::width_fits();
    }
    let at = tree.node(parent).prefix.prefix_len();
    let bit = tree.node(child).prefix.bit_at(at);
    tree.node_mut(parent).set_child_at(Some(child), bit);
    tree.node_mut(child).set_parent(Some(parent));
}

/// Node `x` is a branch point on the way to `p`: it carries no data, has both
/// children, and its prefix is a strict part of `p`.
pub open spec fn is_branch<P: Prefix + Copy, D>(m: Map<usize, Node<P, D>>, x: usize, p: P) -> bool {
    &&& m[x].data is None
    &&& m[x].kid(0) is Some
    &&& m[x].kid(1) is Some
    &&& covers(m[x].prefix, p)
    &&& m[x].prefix.spec_len() < p.spec_len()
}

/// The nodes `m1` are the nodes `m0` with a node `id` for `p` added: every old node
/// keeps its handle, prefix and data, and at most one further node has appeared, a
/// branch point on the way to `p`.
pub open spec fn inserted<P: Prefix + Copy, D>(
    m0: Map<usize, Node<P, D>>,
    m1: Map<usize, Node<P, D>>,
    p: P,
    id: usize,
) -> bool {
    &&& !m0.dom().contains(id)
    &&& has_key(m1, id, key(p))
    &&& forall|x: usize|
        m0.dom().contains(x) ==> #[trigger] m1.dom().contains(x) && m1[x].prefix == m0[x].prefix
            && m1[x].data == m0[x].data
    &&& forall|x: usize|
        #[trigger] m1.dom().contains(x) && !m0.dom().contains(x) && x != id ==> is_branch(m1, x, p)
    &&& forall|x: usize, y: usize|
        #[trigger] m1.dom().contains(x) && !m0.dom().contains(x) && x != id
            && #[trigger] m1.dom().contains(y) && !m0.dom().contains(y) && y != id ==> x == y
}

/// Hanging a fresh leaf into an empty slot of a node that contains it, or making it
/// the root of an empty tree, gives a trie.
pub proof fn lemma_leaf_attached<P: Prefix + Copy, D>(
    m0: Map<usize, Node<P, D>>,
    top0: Option<usize>,
    m1: Map<usize, Node<P, D>>,
    top1: Option<usize>,
    a: Option<usize>,
    t: usize,
)
    requires
        shape_ok(m0, top0),
        !m0.dom().contains(t),
        m1.dom() == m0.dom().insert(t),
        valid(m1[t].prefix),
        m1[t].kid(0) is None,
        m1[t].kid(1) is None,
        m1[t].parent == a,
        forall|x: usize| m0.dom().contains(x) && Some(x) != a ==> #[trigger] m1[x] == m0[x],
        match a {
            Some(a) => {
                let b = bit_of(m1[t].prefix, m0[a].prefix.spec_len());
                &&& m0.dom().contains(a)
                &&& covers(m0[a].prefix, m1[t].prefix)
                &&& m0[a].prefix.spec_len() < m1[t].prefix.spec_len()
                &&& m0[a].kid(b) is None
                &&& m1[a].relinked(m0[a], b, Some(t))
                &&& top1 == top0
            },
            None => top0 is None && top1 == Some(t),
        },
    ensures
        shape_ok(m1, top1),
{
    assert forall|id: usize| m1.dom().contains(id) implies #[trigger] node_ok(m1, top1, id) by {
        if id != t {
            assert(node_ok(m0, top0, id));
        }
    }
}

/// Putting a fresh node `g` for the common prefix of `c` and a new prefix `p` in the
/// place of `c`, with `c` below it and, where `g` does not stand for `p` itself, a
/// fresh leaf `t` for `p` beside `c`, gives a trie.
pub proof fn lemma_glue_attached<P: Prefix + Copy, D>(
    m0: Map<usize, Node<P, D>>,
    top0: Option<usize>,
    m1: Map<usize, Node<P, D>>,
    top1: Option<usize>,
    a: Option<usize>,
    c: usize,
    g: usize,
    t: usize,
    p: P,
)
    requires
        shape_ok(m0, top0),
        valid(p),
        m0.dom().contains(c),
        !m0.dom().contains(g),
        !covers(m0[c].prefix, p),
        is_common(m1[g].prefix, m0[c].prefix, p),
        m1[g].parent == a,
        m1[c].reparented(m0[c], Some(g)),
        m1[g].kid(bit_of(m0[c].prefix, m1[g].prefix.spec_len())) == Some(c),
        forall|x: usize|
            m0.dom().contains(x) && Some(x) != a && x != c ==> #[trigger] m1[x] == m0[x],
        match a {
            Some(a) => {
                let b = bit_of(p, m0[a].prefix.spec_len());
                &&& m0.dom().contains(a)
                &&& covers(m0[a].prefix, p)
                &&& m0[a].prefix.spec_len() < p.spec_len()
                &&& m0[a].kid(b) == Some(c)
                &&& m1[a].relinked(m0[a], b, Some(g))
                &&& top1 == top0
            },
            None => top0 == Some(c) && top1 == Some(g),
        },
        if m1[g].prefix.spec_len() == p.spec_len() {
            &&& m1.dom() == m0.dom().insert(g)
            &&& m1[g].kid(1 - bit_of(m0[c].prefix, m1[g].prefix.spec_len())) is None
        } else {
            &&& m1.dom() == m0.dom().insert(g).insert(t)
            &&& !m0.dom().contains(t)
            &&& t != g
            &&& m1[g].kid(1 - bit_of(m0[c].prefix, m1[g].prefix.spec_len())) == Some(t)
            &&& m1[t].prefix == p
            &&& m1[t].parent == Some(g)
            &&& m1[t].kid(0) is None
            &&& m1[t].kid(1) is None
        },
    ensures
        shape_ok(m1, top1),
{
    let gp = m1[g].prefix;
    let cp = m0[c].prefix;
    lemma_common_below(gp, cp, p);
    assert(node_ok(m0, top0, c));
    if a is Some {
        let an = a->0;
        assert(node_ok(m0, top0, an));
    }
    assert forall|id: usize| m1.dom().contains(id) implies #[trigger] node_ok(m1, top1, id) by {
        if m0.dom().contains(id) && id != c {
            assert(node_ok(m0, top0, id));
        }
    }
}

impl<P: Prefix + Copy, D> Ptree<P, D> {
    /// The node for `prefix`: the one that the tree has, or else a new one without
    /// data, linked in at its place.
    pub fn insert(&mut self, prefix: &P) -> (r: NodeIter)
        requires
            old(self).wf(),
            valid(*prefix),
        ensures
            final(self).wf(),
            r.node is Some,
            has_key(final(self).nodes(), r.node->0, key(*prefix)),
            final(self)@ == old(self)@,
            (exists|id: usize| has_key(old(self).nodes(), id, key(*prefix))) ==> final(self).nodes()
                == old(self).nodes() && final(self).root() == old(self).root(),
            !(exists|id: usize| has_key(old(self).nodes(), id, key(*prefix))) ==> inserted(
                old(self).nodes(),
                final(self).nodes(),
                *prefix,
                r.node->0,
            ) && final(self).nodes()[r.node->0].data is None,
    {
        let ghost m = self.nodes();
        let ghost top = self.root();
        let ghost k = key(*prefix);
        let mut cursor = self.top();
        let mut matched: Option<usize> = None;
        let plen = prefix.prefix_len();
        proof {
            P::width_fits();
            assert forall|id: usize| has_key(m, id, k) implies cursor is Some && under(
                m,
                cursor->0,
                id,
            ) by {
                lemma_under_top(m, top, id);
            }
            if cursor is Some {
                assert(node_ok(m, top, cursor->0));
            }
        }
        while node_match_prefix(self, cursor, prefix)
            invariant
                self.wf(),
                valid(*prefix),
                m == self.nodes(),
                top == self.root(),
                k == key(*prefix),
                plen == prefix.spec_len(),
                *self == *old(self),
                P::spec_width() <= 255,
                cursor matches Some(c) ==> m.dom().contains(c) && valid(m[c].prefix),
                forall|id: usize|
                    has_key(m, id, k) ==> cursor is Some && under(m, cursor->0, id),
                match matched {
                    Some(a) => {
                        &&& m.dom().contains(a)
                        &&& covers(m[a].prefix, *prefix)
                        &&& m[a].prefix.spec_len() < prefix.spec_len()
                        &&& cursor == m[a].kid(bit_of(*prefix, m[a].prefix.spec_len()))
                    },
                    None => cursor == top,
                },
            decreases budget(m, cursor),
        {
            let c = cursor.unwrap();
            let node = self.node(c);
            let nlen = node.prefix.prefix_len();
            if nlen == plen {
                proof {
                    lemma_key_eq(node.prefix, *prefix);
                }
                return NodeIter::from_node(c);
            }
            matched = Some(c);
            let next = node.child_with(prefix.bit_at(nlen));
            proof {
                assert(node_ok(m, top, c));
                assert forall|id: usize| has_key(m, id, k) implies next is Some && under(
                    m,
                    next->0,
                    id,
                ) by {
                    lemma_key_eq(m[id].prefix, *prefix);
                    lemma_search_step(m, top, c, *prefix, id);
                }
                if next is Some {
                    assert(node_ok(m, top, next->0));
                }
            }
            cursor = next;
        }
        proof {
            assert forall|id: usize| !has_key(m, id, k) by {
                if has_key(m, id, k) {
                    lemma_key_eq(m[id].prefix, *prefix);
                    lemma_search_end(m, top, cursor->0, *prefix, id);
                }
            }
            if matched is Some {
                assert(node_ok(m, top, matched->0));
            }
        }

        let new_node: usize;
        match cursor {
            Some(c) => {
                let glue = Node::from_common(&self.node(c).prefix, prefix);
                let ghost gp = glue.prefix;
                proof {
                    lemma_common_below(gp, m[c].prefix, *prefix);
                }
                let glen = glue.prefix.prefix_len();
                let g = self.place(glue);
                set_child(self, g, c);
                match matched {
                    Some(a) => {
                        set_child(self, a, g);
                    },
                    None => {
                        self.set_top(Some(g));
                    },
                }
                if glen != plen {
                    let t = self.place(Node::new(prefix));
                    set_child(self, g, t);
                    new_node = t;
                    proof {
                        lemma_glue_attached(m, top, self.nodes(), self.root(), matched, c, g, t, *prefix);
                    }
                } else {
                    new_node = g;
                    proof {
                        lemma_key_eq(gp, *prefix);
                        lemma_glue_attached(m, top, self.nodes(), self.root(), matched, c, g, g, *prefix);
                    }
                }
            },
            None => {
                let t = self.place(Node::new(prefix));
                match matched {
                    Some(a) => {
                        set_child(self, a, t);
                    },
                    None => {
                        self.set_top(Some(t));
                    },
                }
                new_node = t;
                proof {
                    lemma_leaf_attached(m, top, self.nodes(), self.root(), matched, t);
                }
            },
        }
        proof {
            lemma_routes_kept(m, top, self.nodes(), self.root());
        }
        NodeIter::from_node(new_node)
    }

    /// Stores `data` under `prefix`, in place of what was stored there before.
    pub fn add(&mut self, prefix: &P, data: D)
        requires
            old(self).wf(),
            valid(*prefix),
        ensures
            final(self).wf(),
            final(self)@ == old(self)@.insert(key(*prefix), data),
            forall|id: usize|
                has_key(old(self).nodes(), id, key(*prefix)) ==> data_set(
                    old(self).nodes(),
                    final(self).nodes(),
                    id,
                    data,
                ) && final(self).root() == old(self).root(),
            !(exists|id: usize| has_key(old(self).nodes(), id, key(*prefix))) ==> exists|id: usize|
                inserted(old(self).nodes(), final(self).nodes(), *prefix, id)
                    && final(self).nodes()[id].data == Some(data),
            all_occupied(old(self).nodes()) ==> all_occupied(final(self).nodes()),
    {
        let it = self.insert(prefix);
        let ghost m1 = self.nodes();
        if let Some(id) = it.node {
            self.node_mut(id).set_data(data);
            proof {
                let m0 = old(self).nodes();
                let m2 = self.nodes();
                assert(m2.dom() =~= m1.dom());
                lemma_data_changed(m1, self.root(), m2, id);
                if exists|x: usize| has_key(m0, x, key(*prefix)) {
                    assert forall|x: usize| has_key(m0, x, key(*prefix)) implies data_set(
                        m0,
                        m2,
                        x,
                        data,
                    ) by {
                        lemma_unique(m1, self.root(), x, id);
                    }
                } else {
                    assert forall|x: usize| m0.dom().contains(x) implies #[trigger] m2.dom().contains(x)
                        && m2[x].prefix == m0[x].prefix && m2[x].data == m0[x].data by {
                        assert(m1.dom().contains(x));
                    }
                    assert(inserted(m0, m2, *prefix, id));
                }
                if all_occupied(m0) {
                    assert forall|x: usize| m2.dom().contains(x) implies #[trigger] m2[x].occupied() by {
                        if m0.dom().contains(x) && m2[x].data is None {
                            assert(m0[x].occupied());
                            assert(node_ok(m0, old(self).root(), x));
                            let c = if m0[x].kid(0) is Some {
                                m0[x].kid(0)->0
                            } else {
                                m0[x].kid(1)->0
                            };
                            lemma_inner_has_child(m1, self.root(), x, c);
                        }
                    }
                }
            }
        }
    }
}

} // verus!
