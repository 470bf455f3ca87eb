//! The node of the tree, as a leaf or as an internal node.

use vstd::prelude::*;
use crate::cursor::Cursor;
use crate::datastore::{Row, RowView};
use crate::node_type::{KeyValuePair, LeafNode, NodeType};
use crate::pager::{HasOffset, Offset};
use crate::search::{
    cell_keys,
    has_key,
    lemma_rank_splits,
    rank,
    search_cells,
    search_keys,
    strictly_ascending,
};

verus! {

/// The most separators an internal node holds outside a split: each takes a
/// 12-byte cell behind the 14-byte page header, and 340 such cells fit a page.
pub const MAX_INTERNAL_NODES: usize = 340;

/// The most cells a leaf holds outside a split.
pub const MAX_LEAF_NODES: usize = 12;

/// What inserting below some node did to that node.
#[derive(Debug, Clone)]
pub enum InsertResult<K, V> {
    /// The entry was absorbed.
    Success,
    /// The key was there already; nothing changed.
    DuplicateKey,
    /// The node overflowed and gave its upper half away.
    ParentSplit(SplitEntry<K, V>),
}

/// The upper half of a node that split, with the smallest key it covers.
#[derive(Debug, Clone)]
pub struct SplitEntry<K, V> {
    pub separator: K,
    pub tree: Node<K, V>,
}

#[derive(Debug, Clone)]
pub struct Node<K, V> {
    pub is_root: bool,
    pub node_type: NodeType<K, V>,
    pub parent_offset: Option<Offset>,
    pub num_cells: usize,
    pub offset: Offset,
}

/// The index from which the cells of an overflowing node of `len` cells move
/// to its new sibling: the upper half, the lower keeping the odd cell.
pub open spec fn split_point(len: int) -> int {
    (len + 1) / 2
}

/// The number of separators an overflowing internal node of `len`
/// separators keeps; the next one is promoted and the rest move.
pub open spec fn internal_split_point(len: int) -> int {
    len / 2 - 1
}

/// What a node of rows holds: its header, and either the keys and rows of a
/// leaf with its two neighbours, or the separators and children of an
/// internal node.
pub struct NodeView {
    pub is_root: bool,
    pub parent_offset: Option<Offset>,
    pub offset: Offset,
    pub is_leaf: bool,
    /// The keys of a leaf's cells, or the separators of an internal node.
    pub keys: Seq<usize>,
    /// The rows of a leaf's cells; empty in an internal node.
    pub rows: Seq<RowView>,
    /// The children of an internal node; empty in a leaf.
    pub children: Seq<Offset>,
    pub prev_leaf: Option<Offset>,
    pub next_leaf: Option<Offset>,
}

/// The rows of a run of leaf cells, in cell order.
pub open spec fn cell_rows(cells: Seq<KeyValuePair<usize, Row>>) -> Seq<RowView> {
    Seq::new(cells.len(), |i: int| cells[i].value@)
}

impl View for Node<usize, Row> {
    type V = NodeView;

    open spec fn view(&self) -> NodeView {
        match self.node_type {
            NodeType::Leaf(leaf) => NodeView {
                is_root: self.is_root,
                parent_offset: self.parent_offset,
                offset: self.offset,
                is_leaf: true,
                keys: cell_keys(leaf.children@),
                rows: cell_rows(leaf.children@),
                children: Seq::empty(),
                prev_leaf: leaf.last_leaf,
                next_leaf: leaf.next_leaf,
            },
            NodeType::Internal(inner) => NodeView {
                is_root: self.is_root,
                parent_offset: self.parent_offset,
                offset: self.offset,
                is_leaf: false,
                keys: inner.separators@,
                rows: Seq::empty(),
                children: inner.children@,
                prev_leaf: None,
                next_leaf: None,
            },
        }
    }
}

impl<K, V> HasOffset for Node<K, V> {
    open spec fn spec_offset(&self) -> Offset {
        self.offset
    }

    fn offset(&self) -> (r: Offset) {
        self.offset
    }
}

impl<V> Node<usize, V> {
    pub open spec fn is_leaf(&self) -> bool {
        self.node_type is Leaf
    }

    /// The cells of a leaf, in order.
    pub open spec fn cells(&self) -> Seq<KeyValuePair<usize, V>> {
        self.node_type->Leaf_0.children@
    }

    /// The keys of a leaf's cells, in order.
    pub open spec fn keys(&self) -> Seq<usize> {
        cell_keys(self.cells())
    }

    pub open spec fn prev_leaf(&self) -> Option<Offset> {
        self.node_type->Leaf_0.last_leaf
    }

    pub open spec fn next_leaf(&self) -> Option<Offset> {
        self.node_type->Leaf_0.next_leaf
    }

    /// The separators of an internal node, in order.
    pub open spec fn separators(&self) -> Seq<usize> {
        self.node_type->Internal_0.separators@
    }

    /// The child offsets of an internal node, in order.
    pub open spec fn child_offsets(&self) -> Seq<Offset> {
        self.node_type->Internal_0.children@
    }

    /// The node's own consistency: keys ascend strictly, the recorded count is
    /// the number of cells (of separators, in an internal node), and an
    /// internal node with a separator has one child more than separators.
    pub open spec fn wf(&self) -> bool {
        match self.node_type {
            NodeType::Leaf(leaf) => {
                &&& strictly_ascending(cell_keys(leaf.children@))
                &&& self.num_cells == leaf.children.len()
            },
            NodeType::Internal(inner) => {
                &&& strictly_ascending(inner.separators@)
                &&& self.num_cells == inner.separators.len()
                &&& if inner.separators.len() == 0 {
                    inner.children.len() <= 1
                } else {
                    inner.children.len() == inner.separators.len() + 1
                }
            },
        }
    }

    /// An empty leaf: not the root, no parent, no siblings, offset 0.
    pub fn leaf() -> (r: Self)
        ensures
            r.is_leaf(),
            r.cells() == Seq::<KeyValuePair<usize, V>>::empty(),
            r.prev_leaf() is None,
            r.next_leaf() is None,
            !r.is_root,
            r.parent_offset is None,
            r.num_cells == 0,
            r.offset == Offset(0),
            r.wf(),
    {
        Self {
            is_root: false,
            node_type: NodeType::leaf_new(),
            parent_offset: None,
            num_cells: 0,
            offset: Offset(0),
        }
    }

    /// A leaf of the given cells, otherwise as [`Node::leaf`].
    pub fn leaf_with_children(children: Vec<KeyValuePair<usize, V>>) -> (r: Self)
        ensures
            r.is_leaf(),
            r.cells() == children@,
            r.prev_leaf() is None,
            r.next_leaf() is None,
            !r.is_root,
            r.parent_offset is None,
            r.num_cells == children.len(),
            r.offset == Offset(0),
            r.wf() <==> strictly_ascending(cell_keys(children@)),
    {
        let num_cells = children.len();
        Self {
            is_root: false,
            node_type: NodeType::leaf_with_children(children),
            parent_offset: None,
            num_cells,
            offset: Offset(0),
        }
    }

    /// An internal node without separators or children.
    pub fn internal() -> (r: Self)
        ensures
            !r.is_leaf(),
            r.separators() == Seq::<usize>::empty(),
            r.child_offsets() == Seq::<Offset>::empty(),
            !r.is_root,
            r.parent_offset is None,
            r.num_cells == 0,
            r.offset == Offset(0),
            r.wf(),
    {
        Self {
            is_root: false,
            node_type: NodeType::internal_new(),
            parent_offset: None,
            num_cells: 0,
            offset: Offset(0),
        }
    }

    /// An internal node of the given separators and children.
    pub fn internal_with_separators(keys: Vec<usize>, children: Vec<Offset>) -> (r: Self)
        ensures
            !r.is_leaf(),
            r.separators() == keys@,
            r.child_offsets() == children@,
            !r.is_root,
            r.parent_offset is None,
            r.num_cells == keys.len(),
            r.offset == Offset(0),
    {
        let num_cells = keys.len();
        Self {
            is_root: false,
            node_type: NodeType::internal_with_separators(keys, children),
            parent_offset: None,
            num_cells,
            offset: Offset(0),
        }
    }

    /// The value stored under `key` in this leaf; `None` where the key is
    /// absent or the node is internal.
    pub fn get(&self, key: &usize) -> (r: Option<&V>)
        requires
            self.wf(),
        ensures
            match r {
                Some(v) => self.is_leaf() && rank(self.keys(), *key) < self.cells().len()
                    && self.cells()[rank(self.keys(), *key) as int].key == *key
                    && *v == self.cells()[rank(self.keys(), *key) as int].value,
                None => !self.is_leaf() || !has_key(self.keys(), *key),
            },
    {
        match &self.node_type {
            NodeType::Leaf(leaf) => {
                match search_cells(&leaf.children, *key) {
                    Ok(index) => Some(&leaf.children[index].value),
                    Err(_) => None,
                }
            },
            NodeType::Internal(_) => None,
        }
    }

    /// Inserts a cell into this leaf at its place in key order. A leaf that
    /// then holds more than `MAX_LEAF_NODES` cells keeps those before
    /// `split_point` and hands the rest out as a new leaf.
    pub fn insert_leaf(&mut self, key: usize, value: V) -> (r: InsertResult<usize, V>)
        requires
            old(self).is_leaf(),
            old(self).wf(),
            old(self).num_cells < usize::MAX,
        ensures
            final(self).is_leaf(),
            final(self).wf(),
            final(self).is_root == old(self).is_root,
            final(self).parent_offset == old(self).parent_offset,
            final(self).offset == old(self).offset,
            final(self).prev_leaf() == old(self).prev_leaf(),
            final(self).next_leaf() == old(self).next_leaf(),
            match r {
                InsertResult::DuplicateKey => {
                    &&& has_key(old(self).keys(), key)
                    &&& final(self).cells() == old(self).cells()
                },
                InsertResult::Success => {
                    &&& !has_key(old(self).keys(), key)
                    &&& old(self).cells().len() < MAX_LEAF_NODES
                    &&& final(self).cells() == old(self).cells().insert(
                        rank(old(self).keys(), key) as int,
                        KeyValuePair { key, value },
                    )
                },
                InsertResult::ParentSplit(e) => {
                    let all = old(self).cells().insert(
                        rank(old(self).keys(), key) as int,
                        KeyValuePair { key, value },
                    );
                    let at = split_point(all.len() as int);
                    &&& !has_key(old(self).keys(), key)
                    &&& old(self).cells().len() >= MAX_LEAF_NODES
                    &&& final(self).cells() == all.subrange(0, at)
                    &&& e.tree.is_leaf()
                    &&& e.tree.wf()
                    &&& e.tree.cells() == all.subrange(at, all.len() as int)
                    &&& e.separator == all[at].key
                    &&& e.tree.prev_leaf() is None
                    &&& e.tree.next_leaf() is None
                    &&& !e.tree.is_root
                    &&& e.tree.parent_offset is None
                    &&& e.tree.offset == Offset(0)
                },
            },
    {
        let ghost before = self.cells();
        let result = match &mut self.node_type {
            NodeType::Leaf(leaf) => {
                match search_cells(&leaf.children, key) {
                    Ok(_duplicate_index) => {
                        proof {
                            assert(cell_keys(before)[_duplicate_index as int] == key);
                        }
                        return InsertResult::DuplicateKey;
                    },
                    Err(location) => {
                        leaf.children.insert(location, KeyValuePair { key, value });
                        proof {
                            lemma_insert_keeps_order(before, location as int, KeyValuePair { key, value });
                        }
                        if leaf.children.len() <= MAX_LEAF_NODES {
                            None
                        } else {
                            let at: usize = leaf.children.len() - leaf.children.len() / 2;
                            let upper = leaf.children.split_off(at);
                            proof {
                                let all = before.insert(location as int, KeyValuePair { key, value });
                                lemma_subrange_keeps_order(all, 0, at as int);
                                lemma_subrange_keeps_order(all, at as int, all.len() as int);
                            }
                            Some(upper)
                        }
                    },
                }
            },
            NodeType::Internal(_) => None,
        };
        match result {
            None => {
                self.num_cells += 1;
                InsertResult::Success
            },
            Some(upper) => {
                let new_node = Node::leaf_with_children(upper);
                let separator = new_node.first_key();
                self.num_cells = self.len_cells();
                InsertResult::ParentSplit(SplitEntry { separator, tree: new_node })
            },
        }
    }

    /// Where `key` stands in this leaf: `Ok` with a cursor at its cell, else
    /// `Err` with a cursor at the cell before which it would be inserted. The
    /// cursor is at the end of the table when it stands past the last cell of
    /// a leaf without a next leaf.
    pub fn find(&self, key: &usize) -> (r: Result<Cursor, Cursor>)
        requires
            self.is_leaf(),
            self.wf(),
        ensures
            match r {
                Ok(c) => {
                    &&& c.offset == self.offset
                    &&& c.cell_num == rank(self.keys(), *key)
                    &&& c.cell_num < self.cells().len()
                    &&& self.cells()[c.cell_num as int].key == *key
                    &&& !c.end_of_table
                },
                Err(c) => {
                    &&& !has_key(self.keys(), *key)
                    &&& c.offset == self.offset
                    &&& c.cell_num == rank(self.keys(), *key)
                    &&& c.cell_num <= self.cells().len()
                    &&& c.end_of_table == (self.next_leaf() is None && c.cell_num
                        == self.cells().len())
                },
            },
    {
        match &self.node_type {
            NodeType::Leaf(leaf) => {
                match search_cells(&leaf.children, *key) {
                    Ok(index) => Ok(Cursor::new(self.offset, index, false)),
                    Err(index) => Err(
                        Cursor::new(
                            self.offset,
                            index,
                            leaf.next_leaf.is_none() && index == leaf.children.len(),
                        ),
                    ),
                }
            },
            NodeType::Internal(_) => Err(Cursor::new(self.offset, 0, false)),
        }
    }

    /// Moves the cells from `split_point` on into a new leaf at `new_page`.
    pub fn split(&mut self, new_page: Offset) -> (r: Self)
        requires
            old(self).is_leaf(),
            old(self).wf(),
        ensures
            final(self).is_leaf(),
            final(self).wf(),
            final(self).cells() == old(self).cells().subrange(
                0,
                split_point(old(self).cells().len() as int),
            ),
            final(self).is_root == old(self).is_root,
            final(self).parent_offset == old(self).parent_offset,
            final(self).offset == old(self).offset,
            final(self).prev_leaf() == old(self).prev_leaf(),
            final(self).next_leaf() == old(self).next_leaf(),
            r.is_leaf(),
            r.wf(),
            r.cells() == old(self).cells().subrange(
                split_point(old(self).cells().len() as int),
                old(self).cells().len() as int,
            ),
            r.offset == new_page,
            r.prev_leaf() is None,
            r.next_leaf() is None,
            !r.is_root,
            r.parent_offset is None,
    {
        let ghost before = self.cells();
        let upper = match &mut self.node_type {
            NodeType::Leaf(leaf) => {
                let at: usize = leaf.children.len() - leaf.children.len() / 2;
                proof {
                    lemma_subrange_keeps_order(before, 0, at as int);
                    lemma_subrange_keeps_order(before, at as int, before.len() as int);
                }
                leaf.children.split_off(at)
            },
            NodeType::Internal(_) => Vec::new(),
        };
        let mut new_node = Node::leaf_with_children(upper);
        new_node.offset = new_page;
        self.num_cells = self.len_cells();
        new_node
    }

    /// What the node holds as a leaf or as an internal node.
    pub fn node_type(&self) -> (r: &NodeType<usize, V>)
        ensures
            *r == self.node_type,
    {
        &self.node_type
    }

    /// The last key of a leaf; `None` for an empty leaf or an internal node.
    pub fn largest_key(&self) -> (r: Option<&usize>)
        ensures
            match r {
                Some(k) => self.is_leaf() && self.cells().len() > 0 && *k
                    == self.cells().last().key,
                None => !self.is_leaf() || self.cells().len() == 0,
            },
    {
        match &self.node_type {
            NodeType::Leaf(leaf) => {
                let n = leaf.children.len();
                if n == 0 {
                    None
                } else {
                    Some(&leaf.children[n - 1].key)
                }
            },
            NodeType::Internal(_) => None,
        }
    }

    /// The first key of a leaf; `None` for an empty leaf or an internal node.
    pub fn smallest_key(&self) -> (r: Option<usize>)
        ensures
            match r {
                Some(k) => self.is_leaf() && self.cells().len() > 0 && k == self.cells()[0].key,
                None => !self.is_leaf() || self.cells().len() == 0,
            },
    {
        match &self.node_type {
            NodeType::Leaf(leaf) => {
                if leaf.children.len() == 0 {
                    None
                } else {
                    Some(leaf.children[0].key)
                }
            },
            NodeType::Internal(_) => None,
        }
    }

    fn first_key(&self) -> (r: usize)
        requires
            self.is_leaf(),
            self.cells().len() > 0,
        ensures
            r == self.cells()[0].key,
    {
        match self.smallest_key() {
            Some(k) => k,
            None => 0,
        }
    }

    fn len_cells(&self) -> (r: usize)
        ensures
            self.is_leaf() ==> r == self.cells().len(),
            !self.is_leaf() ==> r == self.separators().len(),
    {
        match &self.node_type {
            NodeType::Leaf(leaf) => leaf.children.len(),
            NodeType::Internal(inner) => inner.separators.len(),
        }
    }

    /// Takes up a separator and the child to its right: `key` goes to its
    /// place among the separators and `right` directly behind the child that
    /// covered `key` before. Returns `false`, changing nothing, on a leaf, on
    /// a separator that is present already, and on a node that lacks the
    /// child to put `right` behind.
    pub fn insert_internal_child(&mut self, key: usize, right: Offset) -> (r: bool)
        requires
            old(self).wf(),
            old(self).num_cells < usize::MAX,
        ensures
            final(self).is_root == old(self).is_root,
            final(self).parent_offset == old(self).parent_offset,
            final(self).offset == old(self).offset,
            final(self).wf(),
            r == (!old(self).is_leaf() && !has_key(old(self).separators(), key)
                && old(self).child_offsets().len() == old(self).separators().len() + 1),
            r ==> {
                let at = rank(old(self).separators(), key) as int;
                &&& !final(self).is_leaf()
                &&& final(self).separators() == old(self).separators().insert(at, key)
                &&& final(self).child_offsets() == old(self).child_offsets().insert(at + 1, right)
            },
            !r ==> final(self).node_type == old(self).node_type && final(self).num_cells == old(
                self,
            ).num_cells,
    {
        let ghost before = self.separators();
        let done = match &mut self.node_type {
            NodeType::Internal(inner) => {
                if inner.children.len() != inner.separators.len() + 1 {
                    false
                } else {
                    match search_keys(&inner.separators, key) {
                        Ok(_index) => {
                            proof {
                                assert(before[_index as int] == key);
                            }
                            false
                        },
                        Err(index) => {
                            inner.separators.insert(index, key);
                            inner.children.insert(index + 1, right);
                            proof {
                                lemma_insert_key_keeps_order(before, index as int, key);
                            }
                            true
                        },
                    }
                }
            },
            NodeType::Leaf(_) => false,
        };
        if done {
            self.num_cells += 1;
        }
        done
    }

    /// Splits an internal node of at least four separators: it keeps the
    /// first `internal_split_point` separators and one child more; the next
    /// separator is promoted, and the separators and children behind it move
    /// to the node handed out.
    pub fn split_internal(&mut self) -> (r: SplitEntry<usize, V>)
        requires
            !old(self).is_leaf(),
            old(self).wf(),
            old(self).separators().len() >= 4,
        ensures
            ({
                let seps = old(self).separators();
                let kids = old(self).child_offsets();
                let at = internal_split_point(seps.len() as int);
                &&& !final(self).is_leaf()
                &&& final(self).wf()
                &&& final(self).separators() == seps.subrange(0, at)
                &&& final(self).child_offsets() == kids.subrange(0, at + 1)
                &&& r.separator == seps[at]
                &&& !r.tree.is_leaf()
                &&& r.tree.wf()
                &&& r.tree.separators() == seps.subrange(at + 1, seps.len() as int)
                &&& r.tree.child_offsets() == kids.subrange(at + 1, kids.len() as int)
                &&& !r.tree.is_root
                &&& r.tree.parent_offset is None
                &&& r.tree.offset == Offset(0)
            }),
            final(self).is_root == old(self).is_root,
            final(self).parent_offset == old(self).parent_offset,
            final(self).offset == old(self).offset,
    {
        let ghost seps = self.separators();
        let (separator, upper_keys, upper_children) = match &mut self.node_type {
            NodeType::Internal(inner) => {
                let at: usize = inner.separators.len() / 2 - 1;
                let upper_keys = inner.separators.split_off(at + 1);
                let upper_children = inner.children.split_off(at + 1);
                let separator = inner.separators[at];
                inner.separators.truncate(at);
                proof {
                    lemma_key_subrange_keeps_order(seps, 0, at as int);
                    lemma_key_subrange_keeps_order(seps, at as int + 1, seps.len() as int);
                    assert(inner.separators@ == seps.subrange(0, at as int));
                }
                (separator, upper_keys, upper_children)
            },
            NodeType::Leaf(_) => (0, Vec::new(), Vec::new()),
        };
        self.num_cells = self.len_cells();
        let tree = Node::internal_with_separators(upper_keys, upper_children);
        SplitEntry { separator, tree }
    }

    /// Sets the leaf before this one and returns the one it replaces.
    pub fn set_last_leaf(&mut self, last: Option<Offset>) -> (r: Option<Offset>)
        requires
            old(self).is_leaf(),
        ensures
            r == old(self).prev_leaf(),
            *final(self) == (Node {
                node_type: NodeType::Leaf(
                    LeafNode { last_leaf: last, ..old(self).node_type->Leaf_0 },
                ),
                ..*old(self)
            }),
    {
        match &mut self.node_type {
            NodeType::Leaf(leaf) => {
                let replaced = leaf.last_leaf;
                leaf.last_leaf = last;
                replaced
            },
            NodeType::Internal(_) => None,
        }
    }

    /// Sets the leaf after this one and returns the one it replaces.
    pub fn set_next_leaf(&mut self, next: Option<Offset>) -> (r: Option<Offset>)
        requires
            old(self).is_leaf(),
        ensures
            r == old(self).next_leaf(),
            *final(self) == (Node {
                node_type: NodeType::Leaf(
                    LeafNode { next_leaf: next, ..old(self).node_type->Leaf_0 },
                ),
                ..*old(self)
            }),
    {
        match &mut self.node_type {
            NodeType::Leaf(leaf) => {
                let replaced = leaf.next_leaf;
                leaf.next_leaf = next;
                replaced
            },
            NodeType::Internal(_) => None,
        }
    }

    /// The leaf after this one, if any.
    pub fn get_next_leaf(&self) -> (r: Option<Offset>)
        requires
            self.is_leaf(),
        ensures
            r == self.next_leaf(),
    {
        match &self.node_type {
            NodeType::Leaf(leaf) => leaf.next_leaf,
            NodeType::Internal(_) => None,
        }
    }

    /// The leaf before this one, if any.
    pub fn get_last_leaf(&self) -> (r: Option<Offset>)
        requires
            self.is_leaf(),
        ensures
            r == self.prev_leaf(),
    {
        match &self.node_type {
            NodeType::Leaf(leaf) => leaf.last_leaf,
            NodeType::Internal(_) => None,
        }
    }
}

/// Inserting a key at its rank keeps a sequence strictly ascending.
pub proof fn lemma_insert_key_keeps_order(keys: Seq<usize>, at: int, key: usize)
    requires
        strictly_ascending(keys),
        !has_key(keys, key),
        at == rank(keys, key),
    ensures
        strictly_ascending(keys.insert(at, key)),
{
    lemma_rank_splits(keys, key);
    let out = keys.insert(at, key);
    assert forall|i: int, j: int| 0 <= i < j < out.len() implies out[i] < out[j] by {
        if j == at {
            assert(out[i] == keys[i]);
        } else if i == at {
            assert(out[j] == keys[j - 1]);
            assert(keys[j - 1] >= key);
            assert(keys[j - 1] != key);
        } else {
            let oi = if i < at { i } else { i - 1 };
            let oj = if j < at { j } else { j - 1 };
            assert(out[i] == keys[oi] && out[j] == keys[oj]);
        }
    }
}

/// A stretch of a strictly ascending sequence is strictly ascending.
pub proof fn lemma_key_subrange_keeps_order(keys: Seq<usize>, from: int, to: int)
    requires
        strictly_ascending(keys),
        0 <= from <= to <= keys.len(),
    ensures
        strictly_ascending(keys.subrange(from, to)),
{
    let out = keys.subrange(from, to);
    assert forall|i: int, j: int| 0 <= i < j < out.len() implies out[i] < out[j] by {
        assert(out[i] == keys[from + i] && out[j] == keys[from + j]);
    }
}

/// Inserting a cell at the rank of its key keeps a leaf's keys strictly
/// ascending, and the keys of the result are the old keys with the new one
/// inserted.
pub proof fn lemma_insert_keeps_order<V>(
    cells: Seq<KeyValuePair<usize, V>>,
    at: int,
    cell: KeyValuePair<usize, V>,
)
    requires
        strictly_ascending(cell_keys(cells)),
        !has_key(cell_keys(cells), cell.key),
        at == rank(cell_keys(cells), cell.key),
    ensures
        cell_keys(cells.insert(at, cell)) == cell_keys(cells).insert(at, cell.key),
        strictly_ascending(cell_keys(cells.insert(at, cell))),
{
    lemma_rank_splits(cell_keys(cells), cell.key);
    assert(cell_keys(cells.insert(at, cell)) =~= cell_keys(cells).insert(at, cell.key));
    lemma_insert_key_keeps_order(cell_keys(cells), at, cell.key);
}

/// The keys of a stretch of cells are that stretch of the keys, and ascend
/// strictly where the whole does.
pub proof fn lemma_subrange_keeps_order<V>(cells: Seq<KeyValuePair<usize, V>>, from: int, to: int)
    requires
        strictly_ascending(cell_keys(cells)),
        0 <= from <= to <= cells.len(),
    ensures
        cell_keys(cells.subrange(from, to)) == cell_keys(cells).subrange(from, to),
        strictly_ascending(cell_keys(cells.subrange(from, to))),
{
    assert(cell_keys(cells.subrange(from, to)) =~= cell_keys(cells).subrange(from, to));
    lemma_key_subrange_keeps_order(cell_keys(cells), from, to);
}

} // verus!
