//! The vertices of the trie.

use vstd::prelude::*;
use crate::prefix::Prefix;
use crate::prefix::is_common;

verus! {

/// The two branch slots of a node, named by the bit that leads into them.
#[derive(Debug, Clone, Copy, PartialEq, Eq)]
pub enum NodeChild {
    Left,
    Right,
}

impl NodeChild {
    /// The bit value that selects this slot.
    pub open spec fn spec_index(&self) -> int {
        match self {
            NodeChild::Left => 0,
            NodeChild::Right => 1,
        }
    }
}

/// A vertex of the trie. It refers to its parent and to its children by their
/// handles in the tree that owns it.
#[derive(Debug)]
pub struct Node<P, D> {
    pub prefix: P,
    pub data: Option<D>,
    pub parent: Option<usize>,
    pub children: [Option<usize>; 2],
}

impl<P: Prefix + Copy, D> Node<P, D> {
    /// The child in slot `b`.
    pub open spec fn kid(&self, b: int) -> Option<usize> {
        self.children@[b]
    }

    /// The same node but for slot `b`, which holds `c`.
    pub open spec fn relinked(&self, before: Self, b: int, c: Option<usize>) -> bool {
        &&& self.prefix == before.prefix
        &&& self.data == before.data
        &&& self.parent == before.parent
        &&& self.kid(b) == c
        &&& self.kid(1 - b) == before.kid(1 - b)
    }

    /// The same node but for its parent, which is `p`.
    pub open spec fn reparented(&self, before: Self, p: Option<usize>) -> bool {
        &&& self.prefix == before.prefix
        &&& self.data == before.data
        &&& self.children == before.children
        &&& self.parent == p
    }

    /// The same node but, possibly, for its data.
    pub open spec fn same_place(&self, before: Self) -> bool {
        &&& self.prefix == before.prefix
        &&& self.parent == before.parent
        &&& self.children == before.children
    }

    /// A node that has data or at least one child.
    pub open spec fn occupied(&self) -> bool {
        self.data is Some || self.kid(0) is Some || self.kid(1) is Some
    }

    /// A node for `prefix` with no data, no parent and no children.
    pub fn new(prefix: &P) -> (n: Self)
        ensures
            n.prefix == *prefix,
            n.data is None,
            n.parent is None,
            n.kid(0) is None,
            n.kid(1) is None,
    {
        Node { prefix: *prefix, data: None, parent: None, children: [None, None] }
    }

    /// The handle of the parent; none for a root or a node outside a tree.
    pub fn parent(&self) -> (r: Option<usize>)
        ensures
            r == self.parent,
    {
        self.parent
    }

    /// The handle of the child in the slot `bit`.
    pub fn child(&self, bit: NodeChild) -> (r: Option<usize>)
        ensures
            r == self.kid(bit.spec_index()),
    {
        match bit {
            NodeChild::Left => self.children[0],
            NodeChild::Right => self.children[1],
        }
    }

    /// A fresh node for the longest prefix that contains both arguments.
    pub(crate) fn from_common(prefix1: &P, prefix2: &P) -> (n: Self)
        requires
            prefix1.spec_len() <= P::spec_width(),
            prefix2.spec_len() <= P::spec_width(),
        ensures
            n.data is None,
            n.parent is None,
            n.kid(0) is None,
            n.kid(1) is None,
            is_common(n.prefix, *prefix1, *prefix2),
    {
        let common = P::from_common(prefix1, prefix2);
        Self::new(&common)
    }

    /// The handle of the child in the slot that the bit value `bit` selects.
    pub(crate) fn child_with(&self, bit: u8) -> (r: Option<usize>)
        requires
            bit < 2,
        ensures
            r == self.kid(bit as int),
    {
        self.children[bit as usize]
    }

    /// Names `parent` as the parent.
    pub(crate) fn set_parent(&mut self, parent: Option<usize>)
        ensures
            final(self).parent == parent,
            final(self).prefix == old(self).prefix,
            final(self).data == old(self).data,
            final(self).children == old(self).children,
    {
        self.parent = parent;
    }

    /// Puts `child` into the slot that the bit value `bit` selects.
    pub(crate) fn set_child_at(&mut self, child: Option<usize>, bit: u8)
        requires
            bit < 2,
        ensures
            final(self).kid(bit as int) == child,
            final(self).kid(1 - bit) == old(self).kid(1 - bit),
            final(self).prefix == old(self).prefix,
            final(self).data == old(self).data,
            final(self).parent == old(self).parent,
    {
        self.children[bit as usize] = child;
    }

    /// Stores `data` in the node, in place of what it held.
    pub fn set_data(&mut self, data: D)
        ensures
            final(self).data == Some(data),
            final(self).prefix == old(self).prefix,
            final(self).parent == old(self).parent,
            final(self).children == old(self).children,
    {
        self.data = Some(data);
    }

    /// Takes the data out of the node.
    pub fn unset_data(&mut self)
        ensures
            final(self).data is None,
            final(self).prefix == old(self).prefix,
            final(self).parent == old(self).parent,
            final(self).children == old(self).children,
    {
        self.data = None;
    }

    /// Whether the node carries data.
    pub(crate) fn has_data(&self) -> (r: bool)
        ensures
            r == (self.data is Some),
    {
        self.data.is_some()
    }

    /// Whether the left slot holds a child.
    pub(crate) fn has_left(&self) -> (r: bool)
        ensures
            r == (self.kid(0) is Some),
    {
        self.children[0].is_some()
    }

    /// Whether the right slot holds a child.
    pub(crate) fn has_right(&self) -> (r: bool)
        ensures
            r == (self.kid(1) is Some),
    {
        self.children[1].is_some()
    }

    /// Whether the node has data or a child.
    pub(crate) fn is_occupied(&self) -> (r: bool)
        ensures
            r == self.occupied(),
    {
        self.has_data() || self.has_left() || self.has_right()
    }
}

} // verus!
