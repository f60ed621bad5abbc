//! Cursors over the nodes of a tree, and the steps that move them.

use vstd::prelude::*;
use crate::node::Node;
use crate::node::NodeChild;
use crate::order::after;
use crate::order::lemma_pos;
use crate::order::lemma_step_tail;
use crate::order::order;
use crate::order::step;
use crate::order::tail_from;
use crate::prefix::Prefix;
use crate::shape::lemma_parent_link;
use crate::tree::Ptree;

verus! {

/// A position in a tree: the handle of a node, or the end.
#[derive(Debug, Clone, Copy)]
pub struct NodeIter {
    pub node: Option<usize>,
}

/// A position in a tree that steps over the nodes that carry data.
#[derive(Debug, Clone, Copy)]
pub struct DataIter {
    pub node: Option<usize>,
}

/// The test that a node of `m` carries data.
pub open spec fn carries<P: Prefix + Copy, D>(m: Map<usize, Node<P, D>>) -> spec_fn(usize) -> bool {
    |x: usize| m[x].data is Some
}

/// A sequence that begins with `x` filters to its filtered rest, with `x` before it
/// if `x` passes.
pub proof fn lemma_filter_head(s: Seq<usize>, p: spec_fn(usize) -> bool)
    requires
        s.len() > 0,
    ensures
        s.filter(p) == (if p(s[0]) {
            seq![s[0]]
        } else {
            Seq::empty()
        }) + s.skip(1).filter(p),
{
    assert(s =~= seq![s[0]] + s.skip(1));
    s.skip(1).lemma_filter_prepend(s[0], p);
}

impl<P: Prefix + Copy, D> Ptree<P, D> {
    /// The handles of all nodes, in walking order: a node, then all below its left
    /// slot, then all below its right slot.
    pub open spec fn in_order(&self) -> Seq<usize> {
        order(self.nodes(), self.root())
    }

    /// The handles of the nodes that carry data, in walking order.
    pub open spec fn data_in_order(&self) -> Seq<usize> {
        self.in_order().filter(carries(self.nodes()))
    }

    /// The node that follows `id` in walking order.
    pub(crate) fn next(&self, id: usize) -> (r: Option<usize>)
        requires
            self.wf(),
            self.nodes().dom().contains(id),
        ensures
            r == step(self.nodes(), id),
    {
        let node = self.node(id);
        if let Some(left) = node.child(NodeChild::Left) {
            return Some(left);
        }
        if let Some(right) = node.child(NodeChild::Right) {
            return Some(right);
        }
        let ghost m = self.nodes();
        let mut cursor = id;
        loop
            invariant
                self.wf(),
                m == self.nodes(),
                m.dom().contains(cursor),
                after(m, cursor) == after(m, id),
                step(m, id) == after(m, id),
            decreases m[cursor].prefix.spec_len(),
        {
            match self.node(cursor).parent() {
                None => {
                    return None;
                },
                Some(parent) => {
                    proof {
                        lemma_parent_link(m, self.root(), cursor);
                    }
                    let above = self.node(parent);
                    if let Some(left) = above.child(NodeChild::Left) {
                        if left == cursor {
                            if let Some(right) = above.child(NodeChild::Right) {
                                return Some(right);
                            }
                        }
                    }
                    cursor = parent;
                },
            }
        }
    }

    /// The first node after `id` in walking order that carries data.
    pub(crate) fn next_with_data(&self, id: usize) -> (r: Option<usize>)
        requires
            self.wf(),
            self.nodes().dom().contains(id),
        ensures
            r matches Some(x) ==> self.nodes().dom().contains(x) && self.nodes()[x].data is Some,
            tail_from(self.nodes(), self.root(), r).filter(carries(self.nodes())) == tail_from(
                self.nodes(),
                self.root(),
                Some(id),
            ).skip(1).filter(carries(self.nodes())),
    {
        let ghost m = self.nodes();
        let ghost top = self.root();
        let ghost want = tail_from(m, top, Some(id)).skip(1).filter(carries(m));
        let mut next = self.next(id);
        proof {
            P::width_fits();
            lemma_step_tail(m, top, id);
        }
        while next.is_some()
            invariant
                self.wf(),
                m == self.nodes(),
                top == self.root(),
                P::spec_width() <= 255,
                next matches Some(x) ==> m.dom().contains(x),
                want == tail_from(m, top, Some(id)).skip(1).filter(carries(m)),
                tail_from(m, top, next).filter(carries(m)) == want,
            decreases tail_from(m, top, next).len(),
        {
            let n = next.unwrap();
            if self.node(n).has_data() {
                return Some(n);
            }
            let following = self.next(n);
            proof {
                lemma_step_tail(m, top, n);
                lemma_filter_head(tail_from(m, top, next), carries(m));
            }
            next = following;
        }
        next
    }

    /// A cursor at the first node in walking order.
    pub fn node_iter(&self) -> (r: NodeIter)
        requires
            self.wf(),
        ensures
            r.node == self.root(),
            r.rest(self) == self.in_order(),
    {
        proof {
            self.lemma_tail_from_root();
        }
        NodeIter { node: self.top() }
    }

    /// A cursor over the nodes that carry data, in walking order.
    pub fn iter(&self) -> (r: DataIter)
        requires
            self.wf(),
        ensures
            r.node == self.root(),
            r.rest(self) == self.data_in_order(),
    {
        proof {
            self.lemma_tail_from_root();
        }
        DataIter { node: self.top() }
    }

    /// From the root on, the whole order is left.
    pub proof fn lemma_tail_from_root(&self)
        requires
            self.wf(),
        ensures
            tail_from(self.nodes(), self.root(), self.root()) == self.in_order(),
    {
        P::width_fits();
        let m = self.nodes();
        let top = self.root();
        if top is Some {
            lemma_pos(m, top, top->0);
        }
    }
}

impl NodeIter {
    /// A cursor at `node`.
    pub(crate) fn from_node(node: usize) -> (r: Self)
        ensures
            r.node == Some(node),
    {
        NodeIter { node: Some(node) }
    }

    /// The nodes that the cursor has yet to give, in the order in which it gives them.
    pub open spec fn rest<P: Prefix + Copy, D>(&self, tree: &Ptree<P, D>) -> Seq<usize> {
        tail_from(tree.nodes(), tree.root(), self.node)
    }

    /// Gives the node that the cursor stands at and moves on to the one that follows
    /// it in walking order.
    pub fn next<P: Prefix + Copy, D>(&mut self, tree: &Ptree<P, D>) -> (r: Option<usize>)
        requires
            tree.wf(),
        ensures
            old(self).rest(tree).len() == 0 ==> r is None && final(self).rest(tree).len() == 0,
            old(self).rest(tree).len() > 0 ==> r == Some(old(self).rest(tree)[0]) && final(self).rest(tree) == old(self).rest(tree).skip(1),
    {
        proof {
            P::width_fits();
        }
        match self.node {
            None => None,
            Some(id) => {
                if tree.get(id).is_none() {
                    self.node = None;
                    return None;
                }
                proof {
                    lemma_step_tail(tree.nodes(), tree.root(), id);
                }
                self.node = tree.next(id);
                Some(id)
            },
        }
    }

    /// All nodes that the cursor has yet to give.
    pub fn collect<P: Prefix + Copy, D>(self, tree: &Ptree<P, D>) -> (v: Vec<usize>)
        requires
            tree.wf(),
        ensures
            v@ == self.rest(tree),
    {
        let mut it = self;
        let mut v: Vec<usize> = Vec::new();
        loop
            invariant
                tree.wf(),
                v@ + it.rest(tree) == self.rest(tree),
            ensures
                v@ == self.rest(tree),
            decreases it.rest(tree).len(),
        {
            match it.next(tree) {
                Some(x) => {
                    v.push(x);
                    assert(v@ + it.rest(tree) =~= self.rest(tree));
                },
                None => {
                    break ;
                },
            }
        }
        v
    }
}

impl DataIter {
    /// The nodes that the cursor has yet to give, in the order in which it gives them.
    pub open spec fn rest<P: Prefix + Copy, D>(&self, tree: &Ptree<P, D>) -> Seq<usize> {
        tail_from(tree.nodes(), tree.root(), self.node).filter(carries(tree.nodes()))
    }

    /// Gives the first node with data at or after the cursor and moves on behind it.
    pub fn next<P: Prefix + Copy, D>(&mut self, tree: &Ptree<P, D>) -> (r: Option<usize>)
        requires
            tree.wf(),
        ensures
            old(self).rest(tree).len() == 0 ==> r is None && final(self).rest(tree).len() == 0,
            old(self).rest(tree).len() > 0 ==> r == Some(old(self).rest(tree)[0]) && final(self).rest(tree) == old(self).rest(tree).skip(1),
    {
        let ghost m = tree.nodes();
        let ghost top = tree.root();
        proof {
            P::width_fits();
            Seq::<usize>::empty().lemma_filter_len(carries(m));
        }
        match self.node {
            None => None,
            Some(id) => {
                match tree.get(id) {
                    None => None,
                    Some(node) => {
                        proof {
                            lemma_step_tail(m, top, id);
                            lemma_filter_head(tail_from(m, top, Some(id)), carries(m));
                        }
                        if node.has_data() {
                            self.node = tree.next_with_data(id);
                            Some(id)
                        } else {
                            match tree.next_with_data(id) {
                                Some(found) => {
                                    proof {
                                        lemma_step_tail(m, top, found);
                                        lemma_filter_head(
                                            tail_from(m, top, Some(found)),
                                            carries(m),
                                        );
                                    }
                                    self.node = tree.next_with_data(found);
                                    Some(found)
                                },
                                None => None,
                            }
                        }
                    },
                }
            },
        }
    }

    /// All nodes that the cursor has yet to give.
    pub fn collect<P: Prefix + Copy, D>(self, tree: &Ptree<P, D>) -> (v: Vec<usize>)
        requires
            tree.wf(),
        ensures
            v@ == self.rest(tree),
    {
        let mut it = self;
        let mut v: Vec<usize> = Vec::new();
        loop
            invariant
                tree.wf(),
                v@ + it.rest(tree) == self.rest(tree),
            ensures
                v@ == self.rest(tree),
            decreases it.rest(tree).len(),
        {
            match it.next(tree) {
                Some(x) => {
                    v.push(x);
                    assert(v@ + it.rest(tree) =~= self.rest(tree));
                },
                None => {
                    break ;
                },
            }
        }
        v
    }
}

} // verus!
