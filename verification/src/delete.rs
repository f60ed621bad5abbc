//! Deletion: taking a node out and collapsing what it leaves unused.

use vstd::prelude::*;
use crate::iter::NodeIter;
use crate::node::Node;
use crate::node::NodeChild;
use crate::prefix::Prefix;
use crate::prefix::covers;
use crate::prefix::key;
use crate::prefix::valid;
use crate::shape::all_occupied;
use crate::shape::bit_of;
use crate::shape::data_cleared;
use crate::shape::holds;
use crate::shape::lemma_routes_removed;
use crate::shape::lemma_unique;
use crate::shape::lemma_data_changed;
use crate::shape::lemma_parent_link;
use crate::shape::node_ok;
use crate::shape::shape_ok;
use crate::tree::Ptree;

verus! {

/// The only child of a node with fewer than two children, if it has one.
pub open spec fn sole_child<P: Prefix + Copy, D>(n: Node<P, D>) -> Option<usize> {
    if n.kid(0) is Some {
        n.kid(0)
    } else {
        n.kid(1)
    }
}

/// Taking a node with fewer than two children out of a trie, with its child, if it
/// has one, put in its place, gives a trie.
pub proof fn lemma_spliced<P: Prefix + Copy, D>(
    m0: Map<usize, Node<P, D>>,
    top0: Option<usize>,
    m1: Map<usize, Node<P, D>>,
    top1: Option<usize>,
    id: usize,
)
    requires
        shape_ok(m0, top0),
        m0.dom().contains(id),
        m0[id].kid(0) is None || m0[id].kid(1) is None,
        m1.dom() == m0.dom().remove(id),
        forall|x: usize|
            m1.dom().contains(x) && Some(x) != sole_child(m0[id]) && Some(x) != m0[id].parent
                ==> #[trigger] m1[x] == m0[x],
        sole_child(m0[id]) matches Some(c) ==> m1[c].reparented(m0[c], m0[id].parent),
        match m0[id].parent {
            Some(p) => m1[p].relinked(
                m0[p],
                bit_of(m0[id].prefix, m0[p].prefix.spec_len()),
                sole_child(m0[id]),
            ) && top1 == top0,
            None => top1 == sole_child(m0[id]),
        },
    ensures
        shape_ok(m1, top1),
{
    let parent = m0[id].parent;
    assert(node_ok(m0, top0, id));
    if parent is Some {
        lemma_parent_link(m0, top0, id);
    }
    assert forall|x: usize| m1.dom().contains(x) implies #[trigger] node_ok(m1, top1, x) by {
        assert(node_ok(m0, top0, x));
    }
}

/// The nodes `m1` are the nodes `m0` after node `id` was erased. A node with two
/// children stays as it is and only loses its data. Any other node leaves, and with
/// it, if it was a leaf, leaves each node above it that has no data and had no other
/// node below it; every node that stays keeps its prefix and data, and one that had
/// data or a child still has one.
pub open spec fn erased<P: Prefix + Copy, D>(
    m0: Map<usize, Node<P, D>>,
    m1: Map<usize, Node<P, D>>,
    id: usize,
) -> bool {
    if m0[id].kid(0) is Some && m0[id].kid(1) is Some {
        data_cleared(m0, m1, id)
    } else {
        &&& !m1.dom().contains(id)
        &&& forall|x: usize| #[trigger]
            m1.dom().contains(x) ==> m0.dom().contains(x) && m1[x].prefix == m0[x].prefix
                && m1[x].data == m0[x].data && (m0[x].occupied() ==> m1[x].occupied())
        &&& forall|x: usize|
            m0.dom().contains(x) && !(#[trigger] m1.dom().contains(x)) && x != id ==> collapsed(
                m0,
                m1,
                id,
                x,
            )
    }
}

/// Node `x` of `m0` is one that left because node `id` left: `id` was a leaf, and `x`
/// lies above it, has no data, and had one child, which has left too.
pub open spec fn collapsed<P: Prefix + Copy, D>(
    m0: Map<usize, Node<P, D>>,
    m1: Map<usize, Node<P, D>>,
    id: usize,
    x: usize,
) -> bool {
    &&& m0[id].kid(0) is None
    &&& m0[id].kid(1) is None
    &&& m0[x].data is None
    &&& covers(m0[x].prefix, m0[id].prefix)
    &&& m0[x].kid(0) is None || m0[x].kid(1) is None
    &&& sole_child(m0[x]) matches Some(c) && m0.dom().contains(c) && !m1.dom().contains(c)
}

/// The nodes `m` without the one that `cursor` names.
pub open spec fn without<P: Prefix + Copy, D>(m: Map<usize, Node<P, D>>, cursor: Option<usize>) -> Map<
    usize,
    Node<P, D>,
> {
    match cursor {
        Some(c) => m.remove(c),
        None => m,
    }
}

/// How far a collapse that stands at `cursor` can still climb.
pub open spec fn climb<P: Prefix + Copy, D>(m: Map<usize, Node<P, D>>, cursor: Option<usize>) -> nat {
    match cursor {
        Some(c) => m[c].prefix.spec_len() + 1,
        None => 0,
    }
}

impl<P: Prefix + Copy, D> Ptree<P, D> {
    /// Erases the node that `iter` stands at: clears its data if it has two children,
    /// else takes it out, and after it each parent that is left with neither data nor
    /// child.
    pub(crate) fn erase(&mut self, iter: NodeIter)
        requires
            old(self).wf(),
            iter.node matches Some(id) ==> old(self).nodes().dom().contains(id),
        ensures
            final(self).wf(),
            match iter.node {
                Some(id) => erased(old(self).nodes(), final(self).nodes(), id),
                None => final(self).nodes() == old(self).nodes() && final(self).root() == old(self).root(),
            },
    {
        let ghost m0 = self.nodes();
        let ghost id0 = iter.node;
        let ghost mut first = true;
        let mut cursor = iter.node;
        while cursor.is_some()
            invariant
                self.wf(),
                old(self).wf(),
                m0 == old(self).nodes(),
                id0 == iter.node,
                id0 matches Some(i) ==> m0.dom().contains(i),
                cursor matches Some(id) ==> self.nodes().dom().contains(id),
                first ==> self.nodes() == m0 && self.root() == old(self).root() && cursor == id0,
                !first ==> id0 is Some && erased(m0, without(self.nodes(), cursor), id0->0) && !(
                m0[id0->0].kid(0) is Some && m0[id0->0].kid(1) is Some),
                !first ==> (cursor matches Some(id) ==> collapsed(
                    m0,
                    without(self.nodes(), cursor),
                    id0->0,
                    id,
                ) && self.nodes()[id].kid(0) is None && self.nodes()[id].kid(1) is None
                    && self.nodes()[id].data is None),
                forall|x: usize|
                    self.nodes().dom().contains(x) ==> m0.dom().contains(x)
                        && #[trigger] self.nodes()[x].prefix == m0[x].prefix && self.nodes()[x].data
                        == m0[x].data,
                cursor is Some ==> forall|x: usize|
                    self.nodes().dom().contains(x) && Some(x) != cursor
                        ==> #[trigger] self.nodes()[x].children == m0[x].children,
                forall|x: usize|
                    self.nodes().dom().contains(x) && Some(x) != cursor && m0[x].occupied()
                        ==> #[trigger] self.nodes()[x].occupied(),
            decreases climb(self.nodes(), cursor),
        {
            let id = cursor.unwrap();
            let ghost m = self.nodes();
            let ghost top = self.root();
            let node = self.node(id);
            let left = node.child(NodeChild::Left);
            let right = node.child(NodeChild::Right);
            if left.is_some() && right.is_some() {
                self.node_mut(id).unset_data();
                proof {
                    assert(self.nodes().dom() =~= m.dom());
                    lemma_data_changed(m, top, self.nodes(), id);
                }
                return ;
            }
            let child = if left.is_some() {
                left
            } else {
                right
            };
            let parent = node.parent();
            proof {
                assert(node_ok(m, top, id));
                if parent is Some {
                    assert(node_ok(m, top, parent->0));
                }
            }
            if let Some(c) = child {
                self.node_mut(c).set_parent(parent);
            }
            cursor = None;
            match parent {
                Some(p) => {
                    if let Some(l) = self.node(p).child(NodeChild::Left) {
                        if l == id {
                            self.node_mut(p).set_child_at(child, 0);
                        }
                    }
                    if let Some(r) = self.node(p).child(NodeChild::Right) {
                        if r == id {
                            self.node_mut(p).set_child_at(child, 1);
                        }
                    }
                    self.release(id);
                    proof {
                        assert(self.nodes().dom() =~= m.dom().remove(id));
                        lemma_spliced(m, top, self.nodes(), self.root(), id);
                    }
                    if !self.node(p).is_occupied() {
                        cursor = Some(p);
                    }
                },
                None => {
                    self.set_top(child);
                    self.release(id);
                    proof {
                        assert(self.nodes().dom() =~= m.dom().remove(id));
                        lemma_spliced(m, top, self.nodes(), self.root(), id);
                    }
                },
            }
            proof {
                let m1 = self.nodes();
                let i0 = id0->0;
                let w1 = without(m1, cursor);
                assert forall|x: usize| #[trigger] w1.dom().contains(x) implies m0.dom().contains(x)
                    && w1[x].prefix == m0[x].prefix && w1[x].data == m0[x].data && (
                m0[x].occupied() ==> w1[x].occupied()) by {}
                assert forall|x: usize|
                    m0.dom().contains(x) && !(#[trigger] w1.dom().contains(x)) && x
                        != i0 implies collapsed(m0, w1, i0, x) by {}
                first = false;
            }
        }
    }

    /// Removes the route stored under `prefix`, if there is one, and with it the nodes
    /// that the route alone kept in the tree.
    pub fn delete(&mut self, prefix: &P)
        requires
            old(self).wf(),
            valid(*prefix),
        ensures
            final(self).wf(),
            final(self)@ == old(self)@.remove(key(*prefix)),
            !old(self)@.dom().contains(key(*prefix)) ==> final(self).nodes() == old(self).nodes()
                && final(self).root() == old(self).root(),
            forall|id: usize|
                holds(old(self).nodes(), id, key(*prefix)) ==> erased(
                    old(self).nodes(),
                    final(self).nodes(),
                    id,
                ),
            all_occupied(old(self).nodes()) ==> all_occupied(final(self).nodes()),
    {
        let iter = self.lookup_exact(prefix);
        let ghost found = iter.node;
        self.erase(iter);
        proof {
            let m0 = old(self).nodes();
            let m1 = self.nodes();
            let k = key(*prefix);
            if let Some(id) = found {
                assert forall|x: usize| holds(m0, x, k) implies erased(m0, m1, x) by {
                    lemma_unique(m0, old(self).root(), x, id);
                }
                lemma_routes_removed(m0, old(self).root(), m1, self.root(), id);
            }
        }
    }
}

} // verus!
