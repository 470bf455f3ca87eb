//! What a node holds as a leaf and as an internal node.

use vstd::prelude::*;
use crate::pager::Offset;

verus! {

/// One cell of a leaf: a key and the value stored under it.
#[derive(Debug, Clone)]
pub struct KeyValuePair<K, V> {
    pub key: K,
    pub value: V,
}

/// Routing node: `separators.len() + 1` children, child `i` holding the keys
/// below `separators[i]` and child `i + 1` those from `separators[i]` on.
#[derive(Debug, Clone)]
pub struct InternalNode<K> {
    pub separators: Vec<K>,
    pub children: Vec<Offset>,
}

/// Leaf node: cells in ascending key order, linked to the leaves on either
/// side.
#[derive(Debug, Clone)]
pub struct LeafNode<K, V> {
    pub children: Vec<KeyValuePair<K, V>>,
    pub last_leaf: Option<Offset>,
    pub next_leaf: Option<Offset>,
}

#[derive(Debug, Clone)]
pub enum NodeType<K, V> {
    Internal(InternalNode<K>),
    Leaf(LeafNode<K, V>),
}

impl<K> InternalNode<K> {
    pub fn new() -> (r: Self)
        ensures
            r.separators@ == Seq::<K>::empty(),
            r.children@ == Seq::<Offset>::empty(),
    {
        Self { separators: Vec::new(), children: Vec::new() }
    }

    pub fn new_with(separators: Vec<K>, children: Vec<Offset>) -> (r: Self)
        ensures
            r.separators == separators,
            r.children == children,
    {
        Self { separators, children }
    }
}

impl<K, V> LeafNode<K, V> {
    pub fn new() -> (r: Self)
        ensures
            r.children@ == Seq::<KeyValuePair<K, V>>::empty(),
            r.last_leaf is None,
            r.next_leaf is None,
    {
        Self { children: Vec::new(), last_leaf: None, next_leaf: None }
    }

    pub fn new_with(
        children: Vec<KeyValuePair<K, V>>,
        last_leaf: Option<Offset>,
        next_leaf: Option<Offset>,
    ) -> (r: Self)
        ensures
            r.children == children,
            r.last_leaf == last_leaf,
            r.next_leaf == next_leaf,
    {
        Self { children, last_leaf, next_leaf }
    }
}

impl<K, V> NodeType<K, V> {
    pub fn internal_new() -> (r: Self)
        ensures
            r is Internal,
            r->Internal_0.separators@ == Seq::<K>::empty(),
            r->Internal_0.children@ == Seq::<Offset>::empty(),
    {
        Self::Internal(InternalNode::new())
    }

    pub fn internal_with_separators(separators: Vec<K>, children: Vec<Offset>) -> (r: Self)
        ensures
            r == Self::Internal(InternalNode { separators, children }),
    {
        Self::Internal(InternalNode::new_with(separators, children))
    }

    pub fn leaf_new() -> (r: Self)
        ensures
            r is Leaf,
            r->Leaf_0.children@ == Seq::<KeyValuePair<K, V>>::empty(),
            r->Leaf_0.last_leaf is None,
            r->Leaf_0.next_leaf is None,
    {
        Self::Leaf(LeafNode::new())
    }

    pub fn leaf_with_children(children: Vec<KeyValuePair<K, V>>) -> (r: Self)
        ensures
            r == Self::Leaf(LeafNode { children, last_leaf: None, next_leaf: None }),
    {
        Self::Leaf(LeafNode::new_with(children, None, None))
    }
}

} // verus!
