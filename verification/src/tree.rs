//! The trie and the store that holds its nodes.

use vstd::prelude::*;
use ipnet::Ipv4Net;
use crate::node::Node;
use crate::prefix::Prefix;
use crate::prefix::key;
use crate::shape::data_cleared;
use crate::shape::data_set;
use crate::shape::lemma_data_changed;
use crate::shape::routes;
use crate::shape::shape_ok;

verus! {

/// A Patricia trie from prefixes to data.
///
/// Nodes live in slots of the tree and are named by the index of their slot; a slot
/// that a deleted node leaves behind is used again by a later insertion.
#[derive(Debug)]
pub struct Ptree<P, D> {
    slots: Vec<Option<Node<P, D>>>,
    free: Vec<usize>,
    top: Option<usize>,
}

impl<P: Prefix + Copy, D> View for Ptree<P, D> {
    type V = Map<Seq<bool>, D>;

    /// The stored routes: data by the key of the prefix it was added under.
    open spec fn view(&self) -> Map<Seq<bool>, D> {
        routes(self.nodes())
    }
}

impl<D> Ptree<Ipv4Net, D> {
    /// An empty tree of IPv4 prefixes.
    pub fn new_ipv4() -> (t: Self)
        ensures
            t.wf(),
            t.nodes() == Map::<usize, Node<Ipv4Net, D>>::empty(),
            t.root() is None,
            t@ == Map::<Seq<bool>, D>::empty(),
    {
        Self::empty()
    }
}

impl<P: Prefix + Copy, D> Ptree<P, D> {
    /// An empty tree.
    pub fn new() -> (t: Self)
        ensures
            t.wf(),
            t.nodes() == Map::<usize, Node<P, D>>::empty(),
            t.root() is None,
            t@ == Map::<Seq<bool>, D>::empty(),
    {
        Self::empty()
    }

    /// The store is consistent and the nodes form a trie.
    pub open spec fn wf(&self) -> bool {
        self.store_ok() && shape_ok(self.nodes(), self.root())
    }

    /// The nodes of the tree by their handles.
    pub closed spec fn nodes(&self) -> Map<usize, Node<P, D>> {
        Map::new(
            |id: usize| id < self.slots@.len() && self.slots@[id as int] is Some,
            |id: usize| self.slots@[id as int]->0,
        )
    }

    /// The handle of the root node.
    pub closed spec fn root(&self) -> Option<usize> {
        self.top
    }

    /// The list of free slots names empty slots only, each once.
    pub closed spec fn store_ok(&self) -> bool {
        &&& forall|k: int|
            0 <= k < self.free@.len() ==> (#[trigger] self.free@[k]) < self.slots@.len()
                && self.slots@[self.free@[k] as int] is None
        &&& forall|k: int, l: int|
            0 <= k < l < self.free@.len() ==> #[trigger] self.free@[k] != #[trigger] self.free@[l]
    }

    /// A tree without nodes.
    pub(crate) fn empty() -> (t: Self)
        ensures
            t.store_ok(),
            t.nodes() == Map::<usize, Node<P, D>>::empty(),
            t.root() is None,
    {
        let t = Ptree { slots: Vec::new(), free: Vec::new(), top: None };
        t
    }

    /// The handle of the root node.
    pub(crate) fn top(&self) -> (r: Option<usize>)
        ensures
            r == self.root(),
    {
        self.top
    }

    /// Makes `top` the root.
    pub(crate) fn set_top(&mut self, top: Option<usize>)
        ensures
            final(self).root() == top,
            final(self).nodes() == old(self).nodes(),
            final(self).store_ok() == old(self).store_ok(),
    {
        self.top = top;
    }

    /// The node behind a handle, if the handle names one.
    pub fn get(&self, id: usize) -> (r: Option<&Node<P, D>>)
        ensures
            r is Some <==> self.nodes().dom().contains(id),
            r matches Some(n) ==> *n == self.nodes()[id],
    {
        if id < self.slots.len() {
            self.slots[id].as_ref()
        } else {
            None
        }
    }

    /// Sets the data of node `id`, if `id` names a node: the node then stores a route.
    pub fn set_data(&mut self, id: usize, data: D) -> (done: bool)
        requires
            old(self).wf(),
        ensures
            final(self).wf(),
            final(self).root() == old(self).root(),
            done == old(self).nodes().dom().contains(id),
            done ==> data_set(old(self).nodes(), final(self).nodes(), id, data) && final(self)@
                == old(self)@.insert(key(old(self).nodes()[id].prefix), data),
            !done ==> final(self).nodes() == old(self).nodes(),
    {
        if self.get(id).is_none() {
            return false;
        }
        self.node_mut(id).set_data(data);
        proof {
            assert(self.nodes().dom() =~= old(self).nodes().dom());
            lemma_data_changed(old(self).nodes(), self.root(), self.nodes(), id);
        }
        true
    }

    /// Takes the data of node `id` away, if `id` names a node: the node stays where it
    /// is and stores no route.
    pub fn unset_data(&mut self, id: usize) -> (done: bool)
        requires
            old(self).wf(),
        ensures
            final(self).wf(),
            final(self).root() == old(self).root(),
            done == old(self).nodes().dom().contains(id),
            done ==> data_cleared(old(self).nodes(), final(self).nodes(), id) && final(self)@
                == old(self)@.remove(key(old(self).nodes()[id].prefix)),
            !done ==> final(self).nodes() == old(self).nodes(),
    {
        if self.get(id).is_none() {
            return false;
        }
        self.node_mut(id).unset_data();
        proof {
            assert(self.nodes().dom() =~= old(self).nodes().dom());
            lemma_data_changed(old(self).nodes(), self.root(), self.nodes(), id);
        }
        true
    }

    /// The node behind a handle that names one.
    pub(crate) fn node(&self, id: usize) -> (n: &Node<P, D>)
        requires
            self.nodes().dom().contains(id),
        ensures
            *n == self.nodes()[id],
    {
        self.slots[id].as_ref().unwrap()
    }

    /// The node behind a handle that names one, to be changed in place.
    pub(crate) fn node_mut(&mut self, id: usize) -> (n: &mut Node<P, D>)
        requires
            old(self).nodes().dom().contains(id),
        ensures
            *n == old(self).nodes()[id],
            final(self).nodes() == old(self).nodes().insert(id, *final(n)),
            final(self).root() == old(self).root(),
            final(self).store_ok() == old(self).store_ok(),
    {
        self.slots[id].as_mut().unwrap()
    }

    /// Puts `node` into a slot and returns its handle.
    pub(crate) fn place(&mut self, node: Node<P, D>) -> (id: usize)
        requires
            old(self).store_ok(),
        ensures
            final(self).store_ok(),
            !old(self).nodes().dom().contains(id),
            final(self).nodes() == old(self).nodes().insert(id, node),
            final(self).root() == old(self).root(),
    {
        match self.free.pop() {
            Some(id) => {
                self.slots[id] = Some(node);
                id
            },
            None => {
                self.slots.push(Some(node));
                let id = self.slots.len() - 1;
                id
            },
        }
    }

    /// Empties the slot of node `id`.
    pub(crate) fn release(&mut self, id: usize)
        requires
            old(self).store_ok(),
            old(self).nodes().dom().contains(id),
        ensures
            final(self).store_ok(),
            final(self).nodes() == old(self).nodes().remove(id),
            final(self).root() == old(self).root(),
    {
        self.slots[id] = None;
        self.free.push(id);
    }
}

} // verus!
