//! A Patricia trie keyed by IP prefixes.
//!
//! The trie stores data under prefixes and answers three queries: the node of a
//! prefix, the route stored under a prefix, and the longest stored route that contains
//! a prefix. Its nodes live in slots of the tree and are named by handles; cursors walk
//! them in a fixed order. Every operation carries a contract over two models: the map
//! from the significant bits of a prefix to the data stored under it, and the linked
//! nodes themselves.
//!
//! - [`prefix`]: what a key type must offer, and the order of containment.
//! - [`ipv4`]: IPv4 prefixes as keys.
//! - [`node`]: the vertices.
//! - [`shape`]: what makes linked nodes a trie, and the routes they store.
//! - [`tree`]: the tree and its store of nodes.
//! - [`lookup`], [`insert`], [`delete`]: the operations.
//! - [`order`], [`iter`]: the walking order and the cursors that follow it.
//! - [`laws`]: what holds of the operations taken together.

pub mod prefix;
pub mod ipv4;
pub mod node;
pub mod shape;
pub mod tree;
pub mod order;
pub mod iter;
pub mod lookup;
pub mod insert;
pub mod delete;
pub mod laws;

pub use crate::iter::DataIter;
pub use crate::iter::NodeIter;
pub use crate::node::Node;
pub use crate::node::NodeChild;
pub use crate::prefix::Prefix;
pub use crate::tree::Ptree;
