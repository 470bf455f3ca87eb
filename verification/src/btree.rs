//! The B+-tree: search, insert with splits, and the scan along the leaves.

use vstd::prelude::*;
use crate::cursor::Cursor;
use crate::datastore::{Row, RowView, storable};
use crate::error::DbError;
use crate::grow::{
    absorb,
    allot_free,
    allot_page,
    allot_store,
    can_descend,
    descended,
    descended_split,
    grow_shape,
    is_grown,
    is_inner_halves,
    is_upper_leaf,
    leaf_separator,
    leaf_splits,
    lemma_ascend_absorb,
    lemma_ascend_split,
    lemma_ascend_success,
    lemma_descend_leaf_split,
    lemma_descend_leaf_success,
    lemma_descend_step,
    lemma_route,
    lemma_split_root_kind,
    lemma_top_grow,
    lower_leaf,
    pages_for,
    relink,
    route_child,
    split_inner_shape,
    split_leaf_shape,
    split_leaf_store,
    splits_below,
    will_split,
    with_cell,
    with_entry,
};
use crate::node::{
    InsertResult,
    MAX_INTERNAL_NODES,
    MAX_LEAF_NODES,
    Node,
    NodeView,
    SplitEntry,
    cell_rows,
};
use crate::node_type::{KeyValuePair, NodeType};
use crate::page::fits_page;
use crate::pager::{Offset, Pager, stored_node};
use crate::search::{cell_keys, has_key, lemma_rank_splits, rank, search_keys, strictly_ascending};
use crate::shape::{
    Shape,
    Store,
    child_ok,
    entry_keys,
    entry_rows,
    inv,
    key_ceiling,
    layout_of,
    lemma_empty_tree,
    lemma_entries_index,
    lemma_first_leaf,
    lemma_index_end,
    lemma_leaf_ranges,
    lemma_leaf_rank,
    lemma_root_leaf_alone,
    link_ok,
    page_ok,
    prefix_len,
    tree_entries,
    tree_in,
};

verus! {

/// A B+-tree of rows over the pages of a pager, rooted at page 0.
pub struct BTree {
    root: Offset,
    pager: Pager,
    is_empty: bool,
}

impl BTree {
    /// The pager under the tree.
    pub closed spec fn pager(&self) -> Pager {
        self.pager
    }

    /// Whether the tree takes itself to be without rows.
    pub closed spec fn empty_flag(&self) -> bool {
        self.is_empty
    }

    /// The node at each page offset.
    pub open spec fn store(&self) -> Store {
        self.pager().pages()
    }

    /// The tree's own consistency: that of its pager, under a root at page 0.
    pub closed spec fn wf(&self) -> bool {
        &&& self.pager.wf()
        &&& self.root == Offset(0)
    }

    /// Whether the pages hold a B+-tree, and the tree knows whether it is
    /// empty.
    pub open spec fn is_tree(&self) -> bool {
        &&& tree_in(self.store(), self.pager().free())
        &&& self.empty_flag() == (self.store()[0]->0.is_leaf && self.store()[0]->0.keys.len() == 0)
    }

    /// The layout of the tree that the pages hold.
    pub open spec fn layout(&self) -> Shape {
        layout_of(self.store(), self.pager().free())
    }

    /// The table: all keys with their rows, in key order.
    pub open spec fn entries(&self) -> Seq<(usize, RowView)> {
        tree_entries(self.store(), self.layout())
    }

    /// The table's keys, in ascending order.
    pub open spec fn keys(&self) -> Seq<usize> {
        entry_keys(self.entries())
    }

    /// The number of nodes from the root down to a leaf.
    pub open spec fn height(&self) -> nat {
        (self.layout().level)(0) + 1
    }

    /// How many pages an insert of `key` allots.
    pub open spec fn pages_needed_for(&self, key: usize) -> nat {
        pages_for(self.store(), key, (self.layout().level)(0))
    }

    /// Whether an insert of `key` splits the root.
    pub open spec fn root_splits(&self, key: usize) -> bool {
        will_split(self.store(), 0, key, (self.layout().level)(0))
    }

    /// The leaf that a search for `key` reaches from the page `p` in `fuel`
    /// steps at most; the error of the missing node where there is none on
    /// the way, `InvariantViolation` where an internal node lacks the child
    /// to go on to or the steps do not suffice.
    pub open spec fn leaf_for(&self, p: int, key: usize, fuel: nat) -> Result<int, DbError>
        decreases fuel,
    {
        if fuel == 0 {
            Err(DbError::InvariantViolation)
        } else if !(0 <= p < self.store().len() && self.store()[p] is Some) {
            Err(self.pager().miss_error(p))
        } else if self.store()[p]->0.is_leaf {
            Ok(p)
        } else if find_child(self.store()[p]->0, key) >= self.store()[p]->0.children.len() {
            Err(DbError::InvariantViolation)
        } else {
            self.leaf_for(
                self.store()[p]->0.children[find_child(self.store()[p]->0, key)].0 as int,
                key,
                (fuel - 1) as nat,
            )
        }
    }

    /// What a search for `key` from the root gives.
    pub open spec fn found(&self, key: usize) -> Result<Result<Cursor, Cursor>, DbError> {
        match self.leaf_for(0, key, self.store().len()) {
            Ok(p) => Ok(leaf_found(self.store()[p]->0, key)),
            Err(e) => Err(e),
        }
    }

    /// The leaf reached from the page `p` by taking the first child `fuel`
    /// times at most, with the steps taken; the error of the missing node
    /// where there is none on the way, `InvariantViolation` where an
    /// internal node has no child or the steps do not suffice.
    pub open spec fn first_leaf(&self, p: int, fuel: nat) -> Result<(int, nat), DbError>
        decreases fuel,
    {
        if fuel == 0 {
            Err(DbError::InvariantViolation)
        } else if !(0 <= p < self.store().len() && self.store()[p] is Some) {
            Err(self.pager().miss_error(p))
        } else if self.store()[p]->0.is_leaf {
            Ok((p, 0nat))
        } else if self.store()[p]->0.children.len() == 0 {
            Err(DbError::InvariantViolation)
        } else {
            match self.first_leaf(
                self.store()[p]->0.children[0].0 as int,
                (fuel - 1) as nat,
            ) {
                Ok((q, n)) => Ok((q, n + 1)),
                Err(e) => Err(e),
            }
        }
    }

    /// The cursor at the start of a scan: on the first cell of the first
    /// leaf, at the end of the table where that leaf is empty and the last.
    pub open spec fn started(&self) -> Result<Cursor, DbError> {
        match self.first_leaf(0, self.store().len()) {
            Ok((p, _)) => Ok(
                Cursor {
                    offset: Offset(p as usize),
                    cell_num: 0,
                    end_of_table: self.store()[p]->0.keys.len() == 0 && self.store()[p]->0.next_leaf
                        is None,
                },
            ),
            Err(e) => Err(e),
        }
    }

    /// The error of asking for the leaf at the page `p` where there is
    /// none: `InvariantViolation` where the node there is internal, else the
    /// error of the missing node.
    pub open spec fn leaf_miss(&self, p: int) -> DbError {
        if 0 <= p < self.store().len() && self.store()[p] is Some {
            DbError::InvariantViolation
        } else {
            self.pager().miss_error(p)
        }
    }

    /// The rows that a scan meets from the cursor `c` on, in `fuel` steps at
    /// most: the row under the cursor and those met from the cursor moved
    /// one cell on, until the cursor is at the end of the table. An error
    /// where the cursor's page holds no leaf, and `InvariantViolation` where
    /// the leaf has no cell under the cursor or the steps do not suffice.
    pub open spec fn scan_from(&self, c: Cursor, fuel: nat) -> Result<Seq<RowView>, DbError>
        decreases fuel,
    {
        let p = c.offset.0 as int;
        if c.end_of_table {
            Ok(Seq::empty())
        } else if fuel == 0 {
            Err(DbError::InvariantViolation)
        } else if !leaf_at(self.store(), p) {
            Err(self.leaf_miss(p))
        } else if c.cell_num >= self.store()[p]->0.rows.len() {
            Err(DbError::InvariantViolation)
        } else {
            match self.scan_from(advanced(self.store()[p]->0, c), (fuel - 1) as nat) {
                Ok(rest) => Ok(seq![self.store()[p]->0.rows[c.cell_num as int]] + rest),
                Err(e) => Err(e),
            }
        }
    }

    /// The rows that a scan from the start meets, where it takes no more
    /// steps than a table of so many pages has cells.
    pub open spec fn scanned(&self) -> Result<Seq<RowView>, DbError> {
        match self.started() {
            Ok(c) => self.scan_from(c, scan_fuel(self.store().len())),
            Err(e) => Err(e),
        }
    }

    /// Whether nothing of the table differs from `before`: the nodes, the
    /// recycled offsets, the image and the limits.
    pub open spec fn same_table(&self, before: &BTree) -> bool {
        &&& self.store() == before.store()
        &&& self.pager().free() == before.pager().free()
        &&& self.pager().image() == before.pager().image()
        &&& self.pager().page_count() == before.pager().page_count()
        &&& self.pager().limit() == before.pager().limit()
        &&& self.empty_flag() == before.empty_flag()
    }

    /// Whether the cursor stands on a cell of a leaf of the tree.
    pub open spec fn at_cell(&self, c: Cursor) -> bool {
        let p = c.offset.0 as int;
        &&& self.layout().pages.contains(p)
        &&& (self.layout().level)(p) == 0
        &&& c.cell_num < self.store()[p]->0.keys.len()
        &&& !c.end_of_table
    }

    /// The place among all entries at which the cursor stands.
    pub open spec fn cursor_index(&self, c: Cursor) -> int {
        let g = self.layout();
        prefix_len(self.store(), g.leaves, (g.pos)(c.offset.0 as int) as nat) + c.cell_num
    }

    /// Whether every row of the table is stored in full.
    pub open spec fn rows_storable(&self) -> bool {
        forall|i: int| 0 <= i < self.entries().len() ==> storable((#[trigger] self.entries()[i]).1)
    }

    /// The keys of a tree ascend strictly: a scan meets each key once, in
    /// order.
    pub proof fn lemma_keys_ascend(&self)
        requires
            self.is_tree(),
        ensures
            strictly_ascending(self.keys()),
    {
        crate::shape::lemma_entries_sorted(self.store(), self.pager().free(), self.layout());
    }

    /// Every leaf of a tree holds at most `MAX_LEAF_NODES` cells, and every
    /// leaf but a root at least one; the leaves are the pages that stand at
    /// level 0, so that all leaves lie equally deep.
    pub proof fn lemma_leaf_pages(&self, p: int)
        requires
            self.is_tree(),
            self.layout().pages.contains(p),
            self.store()[p]->0.is_leaf,
        ensures
            (self.layout().level)(p) == 0,
            self.store()[p]->0.keys.len() <= MAX_LEAF_NODES,
            p != 0 ==> self.store()[p]->0.keys.len() >= 1,
            strictly_ascending(self.store()[p]->0.keys),
    {
        assert(page_ok(self.store(), self.pager().free(), self.layout(), p));
    }

    /// Every internal node of a tree holds between one and
    /// `MAX_INTERNAL_NODES` separators, in strictly ascending order, and one
    /// child more; each child stands one level below, the child before a
    /// separator covers the keys below it, and the child behind it the keys
    /// from it on.
    pub proof fn lemma_internal_pages(&self, p: int, i: int)
        requires
            self.is_tree(),
            self.layout().pages.contains(p),
            !self.store()[p]->0.is_leaf,
            0 <= i < self.store()[p]->0.keys.len(),
        ensures
            ({
                let v = self.store()[p]->0;
                let g = self.layout();
                let left = v.children[i].0 as int;
                let right = v.children[i + 1].0 as int;
                &&& 1 <= v.keys.len() <= MAX_INTERNAL_NODES
                &&& v.children.len() == v.keys.len() + 1
                &&& strictly_ascending(v.keys)
                &&& g.pages.contains(left)
                &&& g.pages.contains(right)
                &&& (g.level)(left) + 1 == (g.level)(p)
                &&& (g.level)(right) + 1 == (g.level)(p)
                &&& (g.hi)(left) == v.keys[i]
                &&& (g.lo)(right) == v.keys[i]
                &&& (g.lo)(p) <= (g.lo)(left)
                &&& (g.hi)(right) <= (g.hi)(p)
            }),
    {
        let v = self.store()[p]->0;
        let g = self.layout();
        assert(page_ok(self.store(), self.pager().free(), g, p));
        assert(child_ok(g, p, v, i));
        assert(child_ok(g, p, v, i + 1));
        if i > 0 {
            assert((g.lo)(p) < v.keys[i - 1]);
        }
        if i + 1 < v.keys.len() {
            assert(v.keys[i + 1] < (g.hi)(p));
        }
    }

    /// The keys of a leaf of a tree lie within the keys that the layout has
    /// the leaf cover.
    pub proof fn lemma_leaf_keys(&self, p: int, i: int)
        requires
            self.is_tree(),
            self.layout().pages.contains(p),
            self.store()[p]->0.is_leaf,
            0 <= i < self.store()[p]->0.keys.len(),
        ensures
            (self.layout().lo)(p) <= self.store()[p]->0.keys[i] < (self.layout().hi)(p),
    {
        assert(page_ok(self.store(), self.pager().free(), self.layout(), p));
    }

    /// All leaves of a tree lie equally deep: a path from the root to a leaf
    /// has as many pages as the tree is high.
    pub proof fn lemma_leaves_equally_deep(&self, path: Seq<int>)
        requires
            self.is_tree(),
            crate::shape::is_path(self.store(), path),
            path[0] == 0,
            0 <= path.last() < self.store().len() && self.store()[path.last()] is Some
                ==> self.store()[path.last()]->0.is_leaf,
        ensures
            0 <= path.last() < self.store().len(),
            self.store()[path.last()] is Some,
            path.len() == self.height(),
    {
        let g = self.layout();
        crate::shape::lemma_path(self.store(), self.pager().free(), g, path);
        assert(page_ok(self.store(), self.pager().free(), g, path.last()));
    }

    /// Around a separator of an internal node of a tree, every key of a
    /// leaf under the child before it is below the separator, and every key
    /// of a leaf under the child behind it is the separator or above.
    pub proof fn lemma_separator_parts(&self, p: int, i: int, path: Seq<int>, j: int)
        requires
            self.is_tree(),
            self.layout().pages.contains(p),
            !self.store()[p]->0.is_leaf,
            0 <= i < self.store()[p]->0.keys.len(),
            crate::shape::is_path(self.store(), path),
            path[0] == self.store()[p]->0.children[i].0 || path[0] == self.store()[p]->0.children[i
                + 1].0,
            0 <= path.last() < self.store().len(),
            self.store()[path.last()] is Some,
            self.store()[path.last()]->0.is_leaf,
            0 <= j < self.store()[path.last()]->0.keys.len(),
        ensures
            path[0] == self.store()[p]->0.children[i].0 ==> self.store()[path.last()]->0.keys[j]
                < self.store()[p]->0.keys[i],
            path[0] == self.store()[p]->0.children[i + 1].0 ==> self.store()[path.last()]->0.keys[j]
                >= self.store()[p]->0.keys[i],
    {
        let g = self.layout();
        let store = self.store();
        let free = self.pager().free();
        let v = store[p]->0;
        assert(page_ok(store, free, g, p));
        assert(child_ok(g, p, v, i));
        assert(child_ok(g, p, v, i + 1));
        crate::shape::lemma_path(store, free, g, path);
        assert(page_ok(store, free, g, path.last()));
    }

    /// The leaves of a tree form one chain in key order: each leaf records
    /// the next one, the last one none; no leaf stands in the chain twice,
    /// and every leaf of the tree stands in it.
    pub proof fn lemma_leaf_chain(&self)
        requires
            self.is_tree(),
        ensures
            self.layout().leaves.len() >= 1,
            self.layout().leaves.no_duplicates(),
            forall|k: int|
                0 <= k < self.layout().leaves.len() ==> {
                    let p = #[trigger] self.layout().leaves[k];
                    &&& self.layout().pages.contains(p)
                    &&& self.store()[p]->0.is_leaf
                    &&& self.store()[p]->0.next_leaf == if k + 1 == self.layout().leaves.len() {
                        None
                    } else {
                        Some(Offset(self.layout().leaves[k + 1] as usize))
                    }
                    &&& k + 1 < self.layout().leaves.len() ==> (self.layout().hi)(p) == (
                    self.layout().lo)(self.layout().leaves[k + 1])
                },
            forall|p: int|
                self.layout().pages.contains(p) && self.store()[p]->0.is_leaf
                    ==> self.layout().leaves.contains(p),
    {
        let g = self.layout();
        let store = self.store();
        let free = self.pager().free();
        lemma_leaf_ranges(store, free, g);
        assert forall|k: int| 0 <= k < g.leaves.len() implies {
            let p = #[trigger] g.leaves[k];
            &&& g.pages.contains(p)
            &&& store[p]->0.is_leaf
            &&& store[p]->0.next_leaf == if k + 1 == g.leaves.len() {
                None
            } else {
                Some(Offset(g.leaves[k + 1] as usize))
            }
            &&& k + 1 < g.leaves.len() ==> (g.hi)(p) == (g.lo)(g.leaves[k + 1])
        } by {
            assert(link_ok(store, g, k));
        }
        assert forall|a: int, b: int|
            0 <= a < g.leaves.len() && 0 <= b < g.leaves.len() && a != b implies g.leaves[a]
            != g.leaves[b] by {
            assert(link_ok(store, g, a));
            assert(link_ok(store, g, b));
        }
        assert forall|p: int| g.pages.contains(p) && store[p]->0.is_leaf implies g.leaves.contains(
            p,
        ) by {
            assert(page_ok(store, free, g, p));
            assert(g.leaves[(g.pos)(p)] == p);
        }
    }

    /// A consistent tree stands on a consistent pager that holds a root.
    pub proof fn lemma_wf(&self)
        requires
            self.wf(),
        ensures
            self.pager().wf(),
            self.store().len() == self.pager().page_count(),
            self.is_tree() ==> self.store().len() >= 1 && self.store()[0] is Some,
    {
        self.pager.lemma_wf();
        if self.is_tree() {
            assert(page_ok(self.store(), self.pager().free(), self.layout(), 0));
        }
    }

    /// The image that `close` leaves of a tree whose rows are stored in
    /// full stores, at the offset of each page of the tree, the node that
    /// the tree has there.
    pub proof fn lemma_flushed_page(&self, p: int)
        requires
            self.wf(),
            self.is_tree(),
            self.rows_storable(),
            self.layout().pages.contains(p),
        ensures
            0 <= p < self.store().len(),
            self.store()[p] is Some,
            stored_node(self.pager().flushed_image(), p) == self.store()[p],
    {
        let g = self.layout();
        let store = self.store();
        let free = self.pager().free();
        self.pager().lemma_wf();
        lemma_leaf_ranges(store, free, g);
        assert(page_ok(store, free, g, p));
        let v = store[p]->0;
        assert forall|j: int| 0 <= j < v.rows.len() implies storable(#[trigger] v.rows[j]) by {
            assert(v.is_leaf);
            lemma_entries_index(store, g.leaves, g.leaves.len(), (g.pos)(p), j);
            crate::shape::lemma_entries_len(store, g.leaves, g.leaves.len());
            let at = prefix_len(store, g.leaves, (g.pos)(p) as nat) + j;
            assert(storable(self.entries()[at].1));
            assert(self.entries()[at].1 == v.rows[j]);
        }
        self.pager().lemma_flushed_node(p);
    }

    /// A tree whose rows are stored in full is the same table after `close`
    /// and a new start on the image: where `after` is a tree over a pager
    /// opened on the image that `close` leaves of `before`, it holds the
    /// entries that `before` holds.
    pub proof fn lemma_reopen(before: &BTree, after: &BTree)
        requires
            before.wf(),
            before.is_tree(),
            before.rows_storable(),
            after.store().len() == before.store().len(),
            after.pager().free().len() == 0,
            forall|i: int|
                0 <= i < before.store().len() ==> #[trigger] after.store()[i] == stored_node(
                    before.pager().flushed_image(),
                    i,
                ),
            after.is_tree() == tree_in(after.store(), after.pager().free()),
        ensures
            after.is_tree(),
            after.entries() == before.entries(),
            after.height() == before.height(),
    {
        let g = before.layout();
        let store = before.store();
        let free = before.pager().free();
        let store2 = after.store();
        let free2 = after.pager().free();
        before.pager().lemma_wf();
        assert forall|p: int| g.pages.contains(p) implies #[trigger] store2[p] == store[p] by {
            before.lemma_flushed_page(p);
        }
        crate::shape::lemma_inv_frame(store, free, g, store2, free2);
        assert(inv(store2, free2, g));
        crate::shape::lemma_one_tree(store2, free2, g, after.layout());
    }

    /// What an insert into a tree of one node allots: two pages where the
    /// node is full and lacks the key, one for its upper half and one for
    /// the node itself under the new root; else none.
    pub proof fn lemma_single_leaf_needs(&self, key: usize)
        requires
            self.is_tree(),
            self.height() == 1,
        ensures
            self.pages_needed_for(key) == if self.entries().len() >= MAX_LEAF_NODES && !has_key(
                self.keys(),
                key,
            ) {
                2nat
            } else {
                0nat
            },
            self.root_splits(key) == (self.entries().len() >= MAX_LEAF_NODES && !has_key(
                self.keys(),
                key,
            )),
    {
        let g = self.layout();
        let store = self.store();
        let free = self.pager().free();
        assert(page_ok(store, free, g, 0));
        lemma_root_leaf_alone(store, free, g);
        let v = store[0]->0;
        assert(entry_keys(crate::shape::leaf_entries(v)) =~= v.keys);
    }

    /// A table whose rows are stored in full stays so when it takes up a
    /// row that is stored in full.
    pub proof fn lemma_rows_stay_storable(before: &BTree, after: &BTree, key: usize, row: RowView)
        requires
            before.is_tree(),
            before.rows_storable(),
            !has_key(before.keys(), key),
            storable(row),
            after.entries() == with_entry(before.entries(), key, row),
        ensures
            after.rows_storable(),
    {
        before.lemma_keys_ascend();
        crate::grow::lemma_with_entry(before.entries(), key, row);
        let at = rank(before.keys(), key) as int;
        assert forall|i: int| 0 <= i < after.entries().len() implies storable(
            (#[trigger] after.entries()[i]).1,
        ) by {
            if i < at {
                assert(after.entries()[i] == before.entries()[i]);
            } else if i > at {
                assert(after.entries()[i] == before.entries()[i - 1]);
            }
        }
    }

    /// A table that grew from an empty one by inserts is a single leaf as
    /// long as it holds no more rows than a leaf: where a tree of more
    /// than one node holds more than `MAX_LEAF_NODES` rows before an insert,
    /// it does so after it.
    pub proof fn lemma_single_leaf(before: &BTree, after: &BTree, key: usize, row: RowView)
        requires
            before.is_tree(),
            after.is_tree(),
            !has_key(before.keys(), key),
            after.entries() == with_entry(before.entries(), key, row),
            after.height() == before.height() + if before.root_splits(key) {
                1nat
            } else {
                0nat
            },
            before.height() > 1 ==> before.entries().len() > MAX_LEAF_NODES,
        ensures
            after.height() > 1 ==> after.entries().len() > MAX_LEAF_NODES,
    {
        lemma_rank_splits_len(before.keys(), key);
        let g = before.layout();
        let store = before.store();
        let free = before.pager().free();
        if before.height() == 1 && before.root_splits(key) {
            assert(page_ok(store, free, g, 0));
            lemma_root_leaf_alone(store, free, g);
        }
    }

    /// A tree over `pager`: over a pager without pages an empty root leaf at
    /// page 0, else the tree whose root is the node at page 0.
    pub fn new(pager: Pager) -> (r: Result<Self, DbError>)
        requires
            pager.wf(),
        ensures
            r matches Ok(t) ==> {
                &&& t.wf()
                &&& t.pager().free() == pager.free()
                &&& t.pager().image() == pager.image()
                &&& t.pager().limit() == pager.limit()
                &&& if pager.page_count() == 0 {
                    &&& t.pager().page_count() == 1
                    &&& t.store().len() == 1
                    &&& pager.free().len() == 0 ==> t.is_tree() && t.entries().len() == 0
                        && t.height() == 1
                } else {
                    &&& t.store() == pager.pages()
                    &&& t.pager().page_count() == pager.page_count()
                    &&& t.is_tree() == tree_in(pager.pages(), pager.free())
                }
            },
            r is Ok <==> if pager.page_count() == 0 {
                pager.limit() >= 1
            } else {
                pager.pages()[0] is Some
            },
            r matches Err(e) ==> e == if pager.page_count() == 0 {
                DbError::TableFull
            } else if crate::page::PAGE_SIZE <= pager.image().len() {
                DbError::CorruptFile
            } else {
                DbError::InvariantViolation
            },
    {
        let mut pager = pager;
        if pager.num_pages() == 0 {
            let mut root_node: Node<usize, Row> = Node::leaf();
            root_node.is_root = true;
            let ghost v = root_node@;
            proof {
                pager.lemma_wf();
            }
            match pager.commit(root_node) {
                Ok(()) => {},
                Err(e) => {
                    return Err(e);
                },
            }
            let tree = BTree { root: Offset(0), pager, is_empty: true };
            proof {
                if tree.pager.free().len() == 0 {
                    lemma_fresh_tree(tree.store(), tree.pager.free());
                    let g = tree.layout();
                    lemma_empty_tree(tree.store(), tree.pager.free(), g);
                    assert(page_ok(tree.store(), tree.pager.free(), g, 0));
                }
            }
            Ok(tree)
        } else {
            proof {
                pager.lemma_wf();
            }
            let is_empty = match pager.get(&Offset(0)) {
                Ok(root) => match &root.node_type {
                    NodeType::Leaf(leaf) => leaf.children.len() == 0,
                    NodeType::Internal(_) => false,
                },
                Err(e) => {
                    return Err(e);
                },
            };
            Ok(BTree { root: Offset(0), pager, is_empty })
        }
    }

    /// The bytes of the backing image as last opened or closed.
    pub fn image_bytes(&self) -> (r: &Vec<u8>)
        ensures
            r@ == self.pager().image(),
    {
        self.pager.image_bytes()
    }

    /// The offset of the root, which is page 0.
    pub fn root(&self) -> (r: Offset)
        requires
            self.wf(),
        ensures
            r == Offset(0),
    {
        self.root
    }

    /// Whether the table holds no row.
    pub fn is_empty(&self) -> (r: bool)
        ensures
            r == self.empty_flag(),
            self.is_tree() ==> r == (self.entries().len() == 0),
    {
        proof {
            if self.is_tree() {
                lemma_empty_tree(self.store(), self.pager.free(), self.layout());
            }
        }
        self.is_empty
    }

    /// The row in cell `cell_num` of the leaf at `offset`; none where the
    /// leaf has no such cell. Fails where there is no node at `offset` and,
    /// with `InvariantViolation`, where the node is internal.
    pub fn get(&mut self, offset: &Offset, cell_num: usize) -> (r: Result<Option<Row>, DbError>)
        requires
            old(self).wf(),
        ensures
            final(self).wf(),
            final(self).same_table(old(self)),
            r is Ok <==> leaf_at(old(self).store(), offset.0 as int),
            r matches Ok(x) ==> {
                let v = old(self).store()[offset.0 as int]->0;
                if cell_num < v.rows.len() {
                    x matches Some(row) && row@ == v.rows[cell_num as int]
                } else {
                    x is None
                }
            },
            r matches Err(e) ==> e == old(self).leaf_miss(offset.0 as int),
            old(self).is_tree() && old(self).at_cell(Cursor { offset: *offset, cell_num, end_of_table: false })
                ==> (r matches Ok(Some(row)) && 0 <= old(self).cursor_index(
                Cursor { offset: *offset, cell_num, end_of_table: false },
            ) < old(self).entries().len() && row@ == old(self).entries()[old(self).cursor_index(
                Cursor { offset: *offset, cell_num, end_of_table: false },
            )].1),
    {
        proof {
            self.pager.lemma_wf();
            if self.is_tree() && self.at_cell(Cursor { offset: *offset, cell_num, end_of_table: false }) {
                let g = self.layout();
                let p = offset.0 as int;
                assert(page_ok(self.store(), self.pager.free(), g, p));
                lemma_leaf_ranges(self.store(), self.pager.free(), g);
                lemma_entries_index(self.store(), g.leaves, g.leaves.len(), (g.pos)(p), cell_num as int);
                crate::shape::lemma_entries_len(self.store(), g.leaves, g.leaves.len());
            }
        }
        let node = match self.pager.get(offset) {
            Ok(node) => node,
            Err(e) => {
                return Err(e);
            },
        };
        match &node.node_type {
            NodeType::Leaf(leaf) => {
                if cell_num < leaf.children.len() {
                    let row = leaf.children[cell_num].value.clone();
                    assert(node@.rows[cell_num as int] == leaf.children[cell_num as int].value@);
                    Ok(Some(row))
                } else {
                    Ok(None)
                }
            },
            NodeType::Internal(_) => Err(DbError::InvariantViolation),
        }
    }

    /// Inserts a row into the leaf at `offset`, at its place in key order.
    /// A leaf that is full splits: it keeps the cells before the split point
    /// and gets a newly allotted page for its neighbour, the leaf behind it
    /// is told of that neighbour, and the upper half is handed out, not yet
    /// committed, with the key it starts at. Fails, changing nothing, where
    /// there is no leaf at `offset`, where the split needs a page and none
    /// is left, and where the leaf behind a leaf that splits is no leaf.
    pub fn insert_leaf(&mut self, offset: &Offset, key: u32, value: Row) -> (r: Result<
        InsertResult<usize, Row>,
        DbError,
    >)
        requires
            old(self).wf(),
        ensures
            final(self).wf(),
            final(self).pager().image() == old(self).pager().image(),
            final(self).pager().limit() == old(self).pager().limit(),
            final(self).empty_flag() == old(self).empty_flag(),
            r is Ok <==> leaf_insert_fits(old(self), offset.0 as int, key as usize),
            match r {
                Ok(InsertResult::DuplicateKey) => {
                    &&& has_key(old(self).store()[offset.0 as int]->0.keys, key as usize)
                    &&& final(self).same_table(old(self))
                },
                Ok(InsertResult::Success) => {
                    let v = old(self).store()[offset.0 as int]->0;
                    &&& !has_key(v.keys, key as usize)
                    &&& v.keys.len() < MAX_LEAF_NODES
                    &&& final(self).store() == old(self).store().update(
                        offset.0 as int,
                        Some(with_cell(v, key as usize, value@)),
                    )
                    &&& final(self).pager().free() == old(self).pager().free()
                    &&& final(self).pager().room() == old(self).pager().room()
                },
                Ok(InsertResult::ParentSplit(e)) => {
                    let store = old(self).store();
                    let free = old(self).pager().free();
                    let p = offset.0 as int;
                    let v = store[p]->0;
                    let n = allot_page(store, free);
                    &&& !has_key(v.keys, key as usize)
                    &&& v.keys.len() == MAX_LEAF_NODES
                    &&& final(self).store() == relink(
                        allot_store(store, free).update(
                            p,
                            Some(lower_leaf(v, key as usize, value@, n)),
                        ),
                        v.next_leaf,
                        n,
                    )
                    &&& final(self).pager().free() == allot_free(free)
                    &&& final(self).pager().room() + 1 == old(self).pager().room()
                    &&& e.tree.offset == Offset(n as usize)
                    &&& is_upper_leaf(v, key as usize, value@, p, n, e.tree@)
                    &&& e.separator == leaf_separator(v, key as usize, value@)
                    &&& e.separator <= u32::MAX
                    &&& e.tree.wf()
                    &&& fits_page(e.tree@)
                    &&& e.tree.parent_offset is None
                },
                Err(e) => {
                    &&& final(self).same_table(old(self))
                    &&& e == leaf_insert_error(old(self), offset.0 as int, key as usize)
                },
            },
    {
        let p = *offset;
        let k = key as usize;
        proof {
            self.pager.lemma_wf();
        }
        match self.pager.fetch(p) {
            Ok(()) => {},
            Err(e) => {
                return Err(e);
            },
        }
        let ghost v = self.store()[p.0 as int]->0;
        let node = self.pager.node(p);
        let (present, full, next) = match &node.node_type {
            NodeType::Leaf(leaf) => {
                let found = node.get(&k);
                proof {
                    if found is Some {
                        assert(v.keys[rank(v.keys, k) as int] == k);
                    }
                }
                (found.is_some(), leaf.children.len() >= MAX_LEAF_NODES, leaf.next_leaf)
            },
            NodeType::Internal(_) => {
                return Err(DbError::InvariantViolation);
            },
        };
        if present {
            return Ok(InsertResult::DuplicateKey);
        }
        proof {
            lemma_rank_splits(v.keys, k);
        }
        if !full {
            let node = self.pager.node_mut(p);
            let res = put_cell(node, k, value);
            return Ok(res);
        }
        if let Some(nx) = next {
            match self.pager.fetch(nx) {
                Ok(()) => {},
                Err(e) => {
                    return Err(e);
                },
            }
            let behind = self.pager.node(nx);
            match &behind.node_type {
                NodeType::Leaf(_) => {},
                NodeType::Internal(_) => {
                    return Err(DbError::InvariantViolation);
                },
            }
        }
        let n = match self.pager.new_page() {
            Ok(n) => n,
            Err(e) => {
                return Err(e);
            },
        };
        proof {
            self.pager.lemma_wf();
        }
        let node = self.pager.node_mut(p);
        let res = put_cell(node, k, value);
        node.set_next_leaf(Some(n));
        match res {
            InsertResult::ParentSplit(e) => {
                let mut e = e;
                e.tree.offset = n;
                e.tree.set_last_leaf(Some(p));
                e.tree.set_next_leaf(next);
                if let Some(nx) = next {
                    let behind = self.pager.node_mut(nx);
                    match &mut behind.node_type {
                        NodeType::Leaf(leaf) => {
                            leaf.last_leaf = Some(n);
                        },
                        NodeType::Internal(_) => {},
                    }
                }
                Ok(InsertResult::ParentSplit(e))
            },
            other => Ok(other),
        }
    }

    /// Lets the internal node at `offset` take up what split off a child of
    /// it: the upper half records the node as its parent and is committed,
    /// and the node takes up the separator and the new child. A node that
    /// was full splits on it, and its own upper half is handed out, not yet
    /// committed, at a newly allotted page. Fails, changing nothing, where
    /// the node cannot take them up or has to split and no page is left.
    fn take_up(&mut self, offset: Offset, entry: SplitEntry<usize, Row>) -> (r: Result<
        Option<SplitEntry<usize, Row>>,
        DbError,
    >)
        requires
            old(self).wf(),
            split_entry_ok(old(self), entry),
        ensures
            final(self).wf(),
            final(self).pager().image() == old(self).pager().image(),
            final(self).pager().limit() == old(self).pager().limit(),
            final(self).empty_flag() == old(self).empty_flag(),
            r is Ok <==> can_take_up(
                old(self),
                offset.0 as int,
                entry.separator,
                entry.tree.offset.0 as int,
            ),
            match r {
                Ok(None) => {
                    let store = old(self).store();
                    let u = store[offset.0 as int]->0;
                    let n = entry.tree.offset.0 as int;
                    let t = NodeView { parent_offset: Some(offset), ..entry.tree@ };
                    &&& u.keys.len() < MAX_INTERNAL_NODES
                    &&& final(self).store() == store.update(n, Some(t)).update(
                        offset.0 as int,
                        Some(absorb(u, rank(u.keys, entry.separator) as int, entry.separator, n)),
                    )
                    &&& final(self).pager().free() == old(self).pager().free()
                    &&& final(self).pager().room() == old(self).pager().room()
                },
                Ok(Some(e2)) => {
                    let store = old(self).store();
                    let free = old(self).pager().free();
                    let u = store[offset.0 as int]->0;
                    let n = entry.tree.offset.0 as int;
                    let t = NodeView { parent_offset: Some(offset), ..entry.tree@ };
                    let a = absorb(u, rank(u.keys, entry.separator) as int, entry.separator, n);
                    let m = allot_page(store, free);
                    &&& u.keys.len() == MAX_INTERNAL_NODES
                    &&& final(self).store().len() == allot_store(store, free).len()
                    &&& final(self).store()[offset.0 as int] is Some
                    &&& final(self).store() == allot_store(store.update(n, Some(t)), free).update(
                        offset.0 as int,
                        final(self).store()[offset.0 as int],
                    )
                    &&& is_inner_halves(
                        a,
                        offset.0 as int,
                        m,
                        final(self).store()[offset.0 as int]->0,
                        e2.tree@,
                    )
                    &&& e2.separator == a.keys[crate::node::internal_split_point(
                        a.keys.len() as int,
                    )]
                    &&& final(self).pager().free() == allot_free(free)
                    &&& final(self).pager().room() + 1 == old(self).pager().room()
                    &&& split_entry_ok(final(self), e2)
                    &&& e2.tree.offset == Offset(m as usize)
                },
                Err(e) => {
                    &&& final(self).same_table(old(self))
                    &&& e == if leaf_or_missing(old(self).store(), offset.0 as int) {
                        if 0 <= offset.0 < old(self).store().len() && old(self).store()[offset.0 as int]
                            is Some {
                            DbError::InvariantViolation
                        } else {
                            old(self).pager().miss_error(offset.0 as int)
                        }
                    } else if !takes(old(self).store()[offset.0 as int]->0, entry.separator)
                        || entry.tree.offset == offset {
                        DbError::InvariantViolation
                    } else {
                        DbError::TableFull
                    }
                },
            },
    {
        proof {
            self.pager.lemma_wf();
        }
        match self.pager.fetch(offset) {
            Ok(()) => {},
            Err(e) => {
                return Err(e);
            },
        }
        if entry.tree.offset.0 == offset.0 {
            return Err(DbError::InvariantViolation);
        }
        let ghost store = self.store();
        let ghost u = store[offset.0 as int]->0;
        let node = self.pager.node(offset);
        let full = match &node.node_type {
            NodeType::Leaf(_) => {
                return Err(DbError::InvariantViolation);
            },
            NodeType::Internal(inner) => {
                if inner.children.len() != inner.separators.len() + 1 {
                    return Err(DbError::InvariantViolation);
                }
                match search_keys(&inner.separators, entry.separator) {
                    Ok(_at) => {
                        proof {
                            assert(u.keys[_at as int] == entry.separator);
                        }
                        return Err(DbError::InvariantViolation);
                    },
                    Err(_) => {},
                }
                inner.separators.len() >= MAX_INTERNAL_NODES
            },
        };
        let fresh = if full {
            match self.pager.new_page() {
                Ok(m) => Some(m),
                Err(e) => {
                    return Err(e);
                },
            }
        } else {
            None
        };
        proof {
            self.pager.lemma_wf();
        }
        let SplitEntry { separator, tree } = entry;
        let mut tree = tree;
        tree.parent_offset = Some(offset);
        let new_off = tree.offset;
        let ghost t = tree@;
        match self.pager.commit(tree) {
            Ok(()) => {},
            Err(e) => {
                return Err(e);
            },
        }
        proof {
            self.pager.lemma_wf();
        }
        let ghost store1 = self.store();
        let node = self.pager.node_mut(offset);
        let ghost before = node@;
        let taken = absorb_child(node, separator, new_off);
        match taken {
            Some(Some(e2)) => {
                let mut e2 = e2;
                match fresh {
                    Some(m) => {
                        e2.tree.offset = m;
                        proof {
                            assert(self.store() =~= allot_store(
                                store.update(new_off.0 as int, Some(t)),
                                old(self).pager().free(),
                            ).update(offset.0 as int, self.store()[offset.0 as int]));
                        }
                        Ok(Some(e2))
                    },
                    None => Err(DbError::InvariantViolation),
                }
            },
            Some(None) => {
                proof {
                    assert(self.store() =~= store.update(new_off.0 as int, Some(t)).update(
                        offset.0 as int,
                        Some(
                            absorb(
                                u,
                                rank(u.keys, separator) as int,
                                separator,
                                new_off.0 as int,
                            ),
                        ),
                    ));
                }
                Ok(None)
            },
            None => Err(DbError::InvariantViolation),
        }
    }

    /// Inserts below the page `offset`: goes down to the leaf that covers
    /// `key`, taking at an internal node the child before the first
    /// separator that is not below `key`, inserts there, and on the way back
    /// lets each node take up what split off its child. What split off the
    /// page `offset` itself is handed out. `fuel` bounds the way down.
    #[verifier::rlimit(40)]
    fn _insert(
        &mut self,
        offset: Offset,
        key: usize,
        value: Row,
        fuel: usize,
        Ghost(g): Ghost<Shape>,
        Ghost(slot): Ghost<int>,
    ) -> (out: (Result<InsertResult<usize, Row>, DbError>, Ghost<Shape>))
        requires
            old(self).wf(),
            key <= u32::MAX,
        ensures
            final(self).wf(),
            final(self).pager().image() == old(self).pager().image(),
            final(self).pager().limit() == old(self).pager().limit(),
            final(self).empty_flag() == old(self).empty_flag(),
            out.0 matches Ok(InsertResult::ParentSplit(e)) ==> split_entry_ok(final(self), e),
            can_descend(
                old(self).store(),
                old(self).pager().free(),
                g,
                offset.0 as int,
                slot,
                key,
                fuel as nat,
                old(self).pager().room(),
            ) ==> insert_outcome(
                old(self),
                final(self),
                g,
                offset.0 as int,
                slot,
                key,
                value@,
                out.0,
                out.1@,
            ),
        decreases fuel,
    {
        let ghost store0 = self.store();
        let ghost free0 = self.pager.free();
        let ghost room0 = self.pager.room();
        let ghost row = value@;
        let ghost p = offset.0 as int;
        let ghost ready = can_descend(store0, free0, g, p, slot, key, fuel as nat, room0);
        proof {
            self.pager.lemma_wf();
            if ready {
                assert(page_ok(store0, free0, g, p));
            }
        }
        match self.pager.fetch(offset) {
            Ok(()) => {},
            Err(e) => {
                return (Err(e), Ghost(g));
            },
        }
        let node = self.pager.node(offset);
        let route = match &node.node_type {
            NodeType::Leaf(_) => None,
            NodeType::Internal(inner) => {
                let idx = match search_keys(&inner.separators, key) {
                    Ok(i) => i,
                    Err(i) => i,
                };
                proof {
                    if ready {
                        lemma_descend_step(store0, free0, g, p, slot, key, fuel as nat, room0);
                    }
                }
                if idx >= inner.children.len() || fuel == 0 {
                    return (Err(DbError::InvariantViolation), Ghost(g));
                }
                Some((idx, inner.children[idx]))
            },
        };
        match route {
            None => {
                let res = self.insert_leaf(&offset, key as u32, value);
                let ghost g2 = if res is Ok && res->Ok_0 is ParentSplit {
                    split_leaf_shape(
                        g,
                        p,
                        allot_page(store0, free0),
                        leaf_separator(store0[p]->0, key, row),
                    )
                } else {
                    g
                };
                proof {
                    self.pager.lemma_wf();
                    if ready {
                        crate::shape::lemma_leaf_rank(store0, free0, g, p, key);
                        crate::shape::lemma_leaf_ranges(store0, free0, g);
                        assert(link_ok(store0, g, (g.pos)(p)));
                        if (g.pos)(p) + 1 < g.leaves.len() {
                            assert(page_ok(store0, free0, g, g.leaves[(g.pos)(p) + 1]));
                        }
                        if store0[p]->0.keys.len() < MAX_LEAF_NODES {
                            lemma_descend_leaf_success(
                                store0,
                                free0,
                                g,
                                p,
                                slot,
                                key,
                                row,
                                fuel as nat,
                                room0,
                            );
                        } else {
                            assert(will_split(store0, p, key, 0));
                            assert(splits_below(store0, p, key, 0) == 1);
                            assert(leaf_insert_fits(old(self), p, key));
                            let e = res->Ok_0->ParentSplit_0;
                            lemma_descend_leaf_split(
                                store0,
                                free0,
                                g,
                                p,
                                slot,
                                key,
                                row,
                                fuel as nat,
                                room0,
                                e.tree@,
                            );
                            assert(self.store().update(e.tree.offset.0 as int, Some(e.tree@))
                                == split_leaf_store(
                                allot_store(store0, free0),
                                p,
                                key,
                                row,
                                allot_page(store0, free0),
                                e.tree@,
                            ));
                        }
                    }
                }
                (res, Ghost(g2))
            },
            Some((idx, child)) => {
                let (res, Ghost(g1)) = self._insert(
                    child,
                    key,
                    value,
                    fuel - 1,
                    Ghost(g),
                    Ghost(idx as int),
                );
                let ghost store1 = self.store();
                let ghost free1 = self.pager.free();
                let ghost room1 = self.pager.room();
                match res {
                    Ok(InsertResult::ParentSplit(entry)) => {
                        let ghost sep = entry.separator;
                        let ghost n = entry.tree.offset.0 as int;
                        let ghost tv = entry.tree@;
                        let ghost t = NodeView { parent_offset: Some(offset), ..tv };
                        let ghost store2 = store1.update(n, Some(tv));
                        proof {
                            self.pager.lemma_wf();
                            if ready {
                                lemma_descend_step(store0, free0, g, p, slot, key, fuel as nat, room0);
                                assert(crate::grow::pending(store2, free1, g1, child.0 as int, idx as int, sep, n));
                                assert((g1.parent)(child.0 as int) == p);
                                assert(crate::grow::gap_ok(store2, free1, g1, p, idx as int, sep, n));
                                assert(store2[p] == store1[p]);
                                assert(page_ok(store2, free1, g1, n));
                            }
                        }
                        let taken = self.take_up(offset, entry);
                        match taken {
                            Ok(None) => {
                                proof {
                                    if ready {
                                        let w = self.store()[p]->0;
                                        lemma_ascend_absorb(
                                            store0,
                                            free0,
                                            g,
                                            p,
                                            slot,
                                            key,
                                            row,
                                            fuel as nat,
                                            room0,
                                            store2,
                                            free1,
                                            g1,
                                            room1,
                                            sep,
                                            n,
                                            t,
                                            w,
                                        );
                                        assert(self.store() =~= store2.update(n, Some(t)).update(
                                            p,
                                            Some(w),
                                        ));
                                    }
                                }
                                (Ok(InsertResult::Success), Ghost(g1))
                            },
                            Ok(Some(e2)) => {
                                let ghost g3 = split_inner_shape(
                                    g1,
                                    p,
                                    e2.tree.offset.0 as int,
                                    e2.separator,
                                );
                                proof {
                                    self.pager.lemma_wf();
                                    if ready {
                                        let wl = self.store()[p]->0;
                                        let m = e2.tree.offset.0 as int;
                                        assert(allot_page(store2, free1) == allot_page(store1, free1));
                                        assert(allot_store(store2, free1).len() == allot_store(
                                            store1,
                                            free1,
                                        ).len());
                                        lemma_ascend_split(
                                            store0,
                                            free0,
                                            g,
                                            p,
                                            slot,
                                            key,
                                            row,
                                            fuel as nat,
                                            room0,
                                            store2,
                                            free1,
                                            g1,
                                            room1,
                                            sep,
                                            n,
                                            t,
                                            wl,
                                            e2.tree@,
                                        );
                                        assert(self.store().update(m, Some(e2.tree@)) =~= allot_store(
                                            store2.update(n, Some(t)),
                                            free1,
                                        ).update(p, Some(wl)).update(m, Some(e2.tree@)));
                                    }
                                }
                                (Ok(InsertResult::ParentSplit(e2)), Ghost(g3))
                            },
                            Err(e) => (Err(e), Ghost(g1)),
                        }
                    },
                    other => {
                        proof {
                            if ready {
                                lemma_descend_step(store0, free0, g, p, slot, key, fuel as nat, room0);
                                if other is Ok && other->Ok_0 is Success {
                                    lemma_ascend_success(
                                        store0,
                                        free0,
                                        g,
                                        p,
                                        slot,
                                        key,
                                        row,
                                        fuel as nat,
                                        room0,
                                        store1,
                                        free1,
                                        g1,
                                        room1,
                                    );
                                }
                            }
                        }
                        (other, Ghost(g1))
                    },
                }
            },
        }
    }

    /// Replaces a root that has split: the old root moves to a newly
    /// allotted page, and page 0 becomes an internal root over it and the
    /// page that split off it. Fails, changing nothing, where there is no
    /// root, the two halves are not of one kind, or no page is left.
    fn grow_root(&mut self, entry: SplitEntry<usize, Row>) -> (r: Result<(), DbError>)
        requires
            old(self).wf(),
            split_entry_ok(old(self), entry),
        ensures
            final(self).wf(),
            final(self).pager().image() == old(self).pager().image(),
            final(self).pager().limit() == old(self).pager().limit(),
            final(self).empty_flag() == old(self).empty_flag(),
            r is Err ==> final(self).same_table(old(self)),
            r is Ok <==> can_grow(old(self), entry),
            r is Ok ==> grown(old(self), final(self), entry),
    {
        proof {
            self.pager.lemma_wf();
        }
        match self.pager.fetch(self.root) {
            Ok(()) => {},
            Err(e) => {
                return Err(e);
            },
        }
        let root_is_leaf = match &self.pager.node(self.root).node_type {
            NodeType::Leaf(_) => true,
            NodeType::Internal(_) => false,
        };
        let half_is_leaf = match &entry.tree.node_type {
            NodeType::Leaf(_) => true,
            NodeType::Internal(_) => false,
        };
        if entry.tree.offset.0 == 0 || root_is_leaf != half_is_leaf {
            return Err(DbError::InvariantViolation);
        }
        if self.pager.pages_left() == 0 {
            return Err(DbError::TableFull);
        }
        let next = self.pager.next_page();
        if next.0 == entry.tree.offset.0 || next.0 == 0 {
            return Err(DbError::InvariantViolation);
        }
        self.replace_root(entry);
        Ok(())
    }

    /// Does what `grow_root` does, where it can be done.
    #[verifier::rlimit(40)]
    fn replace_root(&mut self, entry: SplitEntry<usize, Row>)
        requires
            old(self).wf(),
            split_entry_ok(old(self), entry),
            can_grow(old(self), entry),
            old(self).pager().is_cached(0),
        ensures
            final(self).wf(),
            final(self).pager().image() == old(self).pager().image(),
            final(self).pager().limit() == old(self).pager().limit(),
            final(self).empty_flag() == old(self).empty_flag(),
            grown(old(self), final(self), entry),
    {
        let ghost store = self.store();
        let ghost free = self.pager.free();
        proof {
            self.pager.lemma_wf();
        }
        let to = match self.pager.new_page() {
            Ok(to) => to,
            Err(_) => Offset(0),
        };
        proof {
            self.pager.lemma_wf();
        }
        let ghost store_a = self.store();
        let moved = self.pager.move_entry(&self.root, to);
        proof {
            self.pager.lemma_wf();
            assert(moved);
        }
        let ghost store_b = self.store();
        let node = self.pager.node_mut(to);
        node.is_root = false;
        node.parent_offset = Some(Offset(0));
        let ghost store_c = self.store();
        let SplitEntry { separator, tree } = entry;
        let mut tree = tree;
        let ghost tv = tree@;
        tree.parent_offset = Some(Offset(0));
        match &mut tree.node_type {
            NodeType::Leaf(leaf) => {
                leaf.last_leaf = Some(to);
            },
            NodeType::Internal(_) => {},
        }
        let mut new_root: Node<usize, Row> = Node::internal_with_separators(
            vec![separator],
            vec![to, tree.offset],
        );
        new_root.is_root = true;
        proof {
            assert(new_root@.keys =~= seq![separator]);
            assert(new_root@.children =~= seq![to, tree.offset]);
            assert(new_root.wf());
            assert(fits_page(new_root@));
        }
        let ghost n = tree.offset.0 as int;
        let ghost w0 = new_root@;
        let ghost wn = tree@;
        let committed = self.pager.commit(new_root);
        let ghost store_d = self.store();
        proof {
            self.pager.lemma_wf();
            assert(committed is Ok);
        }
        let committed = self.pager.commit(tree);
        proof {
            self.pager.lemma_wf();
            assert(committed is Ok);
            let base = allot_store(store.update(n, Some(tv)), free);
            let after = self.store();
            let at = to.0 as int;
            assert(store_b[at] == Some(NodeView { offset: to, ..store[0]->0 }));
            assert(store_d =~= store_c.update(0, Some(w0)));
            assert(after =~= store_d.update(n, Some(wn)));
            assert(after[at] == store_c[at]);
            assert(after =~= base.update(at, after[at]).update(n, after[n]).update(0, after[0]));
        }
    }

    /// How many pages an insert of `key` will allot: none where the key is
    /// there; else one for each node on the way to the key's leaf that
    /// splits, which are the leaf, if it is full, and the full internal
    /// nodes in a row above it, and one more where that row reaches the
    /// root.
    pub fn pages_needed(&mut self, key: u32) -> (r: Result<usize, DbError>)
        requires
            old(self).wf(),
        ensures
            final(self).wf(),
            final(self).same_table(old(self)),
            old(self).is_tree() ==> r == Ok::<usize, DbError>(
                if has_key(old(self).keys(), key as usize) {
                    0usize
                } else {
                    old(self).pages_needed_for(key as usize) as usize
                },
            ) && old(self).pages_needed_for(key as usize) <= usize::MAX,
    {
        proof {
            if self.is_tree() {
                lemma_pages_bound(
                    self.store(),
                    self.pager.free(),
                    self.layout(),
                    0,
                    key as usize,
                );
                self.pager.lemma_wf();
            }
        }
        match self.find(key) {
            Ok(Ok(_)) => {
                return Ok(0);
            },
            Ok(Err(_)) => {},
            Err(e) => {
                return Err(e);
            },
        }
        let k = key as usize;
        let mut off = self.root;
        let mut depth: usize = 0;
        let mut run: usize = 0;
        let ghost g = self.layout();
        let ghost tree = self.is_tree() && !has_key(self.keys(), k);
        let ghost store = self.store();
        let ghost free = self.pager.free();
        let limit = self.pager.num_pages();
        proof {
            self.pager.lemma_wf();
        }
        loop
            invariant
                self.wf(),
                self.same_table(old(self)),
                store == self.store(),
                free == self.pager.free(),
                limit == self.pager.page_count(),
                tree == (old(self).is_tree() && !has_key(old(self).keys(), k)),
                old(self).is_tree() ==> !has_key(old(self).keys(), k),
                old(self).is_tree() ==> old(self).pages_needed_for(k) <= usize::MAX,
                g == old(self).layout(),
                k == key as usize,
                run <= depth <= limit,
                store.len() == limit,
                limit <= crate::pager::page_ceiling(),
                tree ==> !has_key(entry_keys(tree_entries(store, g)), k),
                tree ==> g.pages.contains(off.0 as int) && (g.lo)(off.0 as int) <= k < (g.hi)(
                    off.0 as int,
                ) && depth + (g.level)(off.0 as int) == (g.level)(0) && inv(store, free, g),
                tree ==> will_split(store, 0, k, (g.level)(0)) == (run == depth && will_split(
                    store,
                    off.0 as int,
                    k,
                    (g.level)(off.0 as int),
                )),
                tree ==> splits_below(store, 0, k, (g.level)(0)) == splits_below(
                    store,
                    off.0 as int,
                    k,
                    (g.level)(off.0 as int),
                ) + if will_split(store, off.0 as int, k, (g.level)(off.0 as int)) {
                    run as nat
                } else {
                    0nat
                },
            decreases limit - depth,
        {
            if depth >= limit {
                return Err(DbError::InvariantViolation);
            }
            proof {
                if tree {
                    assert(page_ok(store, free, g, off.0 as int));
                }
            }
            match self.pager.fetch(off) {
                Ok(()) => {},
                Err(e) => {
                    return Err(e);
                },
            }
            let node = self.pager.node(off);
            match &node.node_type {
                NodeType::Internal(inner) => {
                    let idx = match search_keys(&inner.separators, k) {
                        Ok(i) => i,
                        Err(i) => i,
                    };
                    proof {
                        if tree {
                            let p = off.0 as int;
                            let v = store[p]->0;
                            lemma_route(store, free, g, p, k);
                            assert(child_ok(g, p, v, idx as int));
                            let c = route_child(v, k);
                            let fuel = (g.level)(p);
                            assert((g.level)(c) == fuel - 1);
                            assert(will_split(store, p, k, fuel) == (v.keys.len()
                                >= MAX_INTERNAL_NODES && will_split(store, c, k, (fuel - 1) as nat)));
                            assert(splits_below(store, p, k, fuel) == splits_below(
                                store,
                                c,
                                k,
                                (fuel - 1) as nat,
                            ) + if will_split(store, p, k, fuel) {
                                1nat
                            } else {
                                0nat
                            });
                        }
                    }
                    if idx >= inner.children.len() {
                        return Err(DbError::InvariantViolation);
                    }
                    let full = inner.separators.len() >= MAX_INTERNAL_NODES;
                    run = if full {
                        run + 1
                    } else {
                        0
                    };
                    off = inner.children[idx];
                    depth = depth + 1;
                },
                NodeType::Leaf(leaf) => {
                    let found = node.get(&k);
                    let present = found.is_some();
                    let full = leaf.children.len() >= MAX_LEAF_NODES;
                    proof {
                        if tree {
                            let p = off.0 as int;
                            let v = store[p]->0;
                            lemma_leaf_rank(store, free, g, p, k);
                            if found is Some {
                                assert(v.keys[rank(v.keys, k) as int] == k);
                            }
                            assert((g.level)(p) == 0);
                            assert(will_split(store, p, k, 0) == leaf_splits(v, k));
                            assert(splits_below(store, p, k, 0) == if leaf_splits(v, k) {
                                1nat
                            } else {
                                0nat
                            });
                        }
                    }
                    if present || !full {
                        return Ok(0);
                    }
                    let top: usize = if run == depth {
                        1
                    } else {
                        0
                    };
                    return Ok(1 + run + top);
                },
            }
        }
    }

    /// Inserts the row `value` under `key`. `Ok(true)` where the table has
    /// taken it up; `Ok(false)`, the table unchanged, where the key is there
    /// already; `TableFull`, the table unchanged, where the pages that the
    /// insert would allot are not left.
    pub fn insert(&mut self, key: u32, value: Row) -> (r: Result<bool, DbError>)
        requires
            old(self).wf(),
        ensures
            final(self).wf(),
            final(self).pager().image() == old(self).pager().image(),
            final(self).pager().limit() == old(self).pager().limit(),
            match old(self).found(key as usize) {
                Ok(Ok(_)) => r == Ok::<bool, DbError>(false) && final(self).same_table(old(self)),
                Ok(Err(_)) => true,
                Err(e) => r == Err::<bool, DbError>(e) && final(self).same_table(old(self)),
            },
            old(self).is_tree() ==> {
                &&& final(self).is_tree()
                &&& match r {
                    Ok(true) => {
                        &&& !has_key(old(self).keys(), key as usize)
                        &&& old(self).pages_needed_for(key as usize) <= old(self).pager().room()
                        &&& final(self).entries() == with_entry(
                            old(self).entries(),
                            key as usize,
                            value@,
                        )
                        &&& final(self).height() == old(self).height() + if old(self).root_splits(
                            key as usize,
                        ) {
                            1nat
                        } else {
                            0nat
                        }
                        &&& final(self).pager().room() + old(self).pages_needed_for(key as usize)
                            == old(self).pager().room()
                    },
                    Ok(false) => {
                        &&& has_key(old(self).keys(), key as usize)
                        &&& final(self).same_table(old(self))
                    },
                    Err(e) => {
                        &&& e == DbError::TableFull
                        &&& !has_key(old(self).keys(), key as usize)
                        &&& old(self).pages_needed_for(key as usize) > old(self).pager().room()
                        &&& final(self).same_table(old(self))
                    },
                }
            },
    {
        let k = key as usize;
        let ghost row = value@;
        let ghost tree = self.is_tree();
        match self.find(key) {
            Ok(Ok(_)) => {
                return Ok(false);
            },
            Ok(Err(_)) => {},
            Err(e) => {
                return Err(e);
            },
        }
        let needed = match self.pages_needed(key) {
            Ok(needed) => needed,
            Err(e) => {
                return Err(e);
            },
        };
        proof {
            self.pager.lemma_wf();
        }
        if needed > self.pager.pages_left() {
            return Err(DbError::TableFull);
        }
        let fuel = self.pager.num_pages();
        let ghost g = self.layout();
        let ghost store0 = self.store();
        let ghost free0 = self.pager.free();
        let ghost room0 = self.pager.room();
        proof {
            if tree {
                assert(inv(store0, free0, g));
                assert(page_ok(store0, free0, g, 0));
                assert(can_descend(store0, free0, g, 0, 0, k, fuel as nat, room0));
            }
        }
        let (res, Ghost(g1)) = self._insert(self.root, k, value, fuel, Ghost(g), Ghost(0int));
        match res {
            Ok(InsertResult::Success) => {
                self.is_empty = false;
                proof {
                    if tree {
                        let store1 = self.store();
                        let free1 = self.pager.free();
                        assert(inv(store1, free1, g1));
                        assert(tree_in(store1, free1));
                        crate::shape::lemma_one_tree(store1, free1, g1, self.layout());
                        lemma_empty_tree(store1, free1, g1);
                        lemma_rank_splits_len(entry_keys(tree_entries(store0, g)), k);
                    }
                }
                Ok(true)
            },
            Ok(InsertResult::DuplicateKey) => Ok(false),
            Ok(InsertResult::ParentSplit(entry)) => {
                let ghost store1 = self.store();
                let ghost free1 = self.pager.free();
                let ghost room1 = self.pager.room();
                let ghost sep = entry.separator;
                let ghost n = entry.tree.offset.0 as int;
                let ghost tv = entry.tree@;
                let ghost store2 = store1.update(n, Some(tv));
                proof {
                    self.pager.lemma_wf();
                    if tree {
                        lemma_split_root_kind(store2, free1, g1, 0, sep, n);
                        crate::grow::lemma_allot_pending(store2, free1, g1, 0, 0, sep, n);
                        assert(allot_page(store2, free1) == allot_page(store1, free1));
                        assert(store2[0] == store1[0]);
                        assert(can_grow(self, entry));
                    }
                }
                match self.grow_root(entry) {
                    Ok(()) => {
                        self.is_empty = false;
                        proof {
                            if tree {
                                self.pager.lemma_wf();
                                let at = allot_page(store1, free1);
                                let after = self.store();
                                assert(allot_page(store2, free1) == at);
                                lemma_top_grow(
                                    store0,
                                    free0,
                                    g,
                                    0,
                                    k,
                                    row,
                                    room0,
                                    store2,
                                    free1,
                                    g1,
                                    room1,
                                    sep,
                                    n,
                                    after[at]->0,
                                    after[n]->0,
                                    after[0]->0,
                                );
                                let g3 = grow_shape(g1, at, n);
                                assert(after =~= allot_store(store2, free1).update(
                                    at,
                                    Some(after[at]->0),
                                ).update(n, Some(after[n]->0)).update(0, Some(after[0]->0)));
                                crate::shape::lemma_one_tree(
                                    after,
                                    self.pager.free(),
                                    g3,
                                    self.layout(),
                                );
                                lemma_empty_tree(after, self.pager.free(), g3);
                                lemma_rank_splits_len(entry_keys(tree_entries(store0, g)), k);
                            }
                        }
                        Ok(true)
                    },
                    Err(e) => Err(e),
                }
            },
            Err(e) => Err(e),
        }
    }

    /// Writes the nodes of the tree into the image of its pager.
    pub fn close(&mut self)
        requires
            old(self).wf(),
        ensures
            final(self).wf(),
            final(self).pager().image() == old(self).pager().flushed_image(),
            final(self).pager().image().len() == old(self).pager().page_count()
                * crate::page::PAGE_SIZE,
            final(self).pager().limit() == old(self).pager().limit(),
            final(self).pager().page_count() == old(self).pager().page_count(),
            final(self).pager().free() == old(self).pager().free(),
            final(self).pager().cached_views() == old(self).pager().cached_views(),
            final(self).empty_flag() == old(self).empty_flag(),
            old(self).is_tree() ==> final(self).is_tree() && final(self).entries() == old(
                self,
            ).entries() && final(self).height() == old(self).height(),
    {
        proof {
            self.pager.lemma_wf();
        }
        self.pager.close();
        proof {
            self.pager.lemma_wf();
            if old(self).is_tree() {
                let g = old(self).layout();
                let store = old(self).store();
                let free = old(self).pager.free();
                assert forall|p: int| g.pages.contains(p) implies #[trigger] self.store()[p]
                    == store[p] by {
                    assert(page_ok(store, free, g, p));
                }
                assert forall|j: int| 0 <= j < free.len() implies free.contains(
                    #[trigger] free[j],
                ) by {}
                crate::shape::lemma_inv_frame(store, free, g, self.store(), free);
                crate::shape::lemma_one_tree(self.store(), free, g, self.layout());
            }
        }
    }

    /// Where `k` stands in the table: `Ok` with a cursor on its cell, else
    /// `Err` with a cursor at the place in the leaf covering `k` where it
    /// would be inserted.
    pub fn find(&mut self, k: u32) -> (r: Result<Result<Cursor, Cursor>, DbError>)
        requires
            old(self).wf(),
        ensures
            final(self).wf(),
            final(self).same_table(old(self)),
            r == old(self).found(k as usize),
            old(self).is_tree() ==> match r {
                Ok(Ok(c)) => {
                    &&& has_key(old(self).keys(), k as usize)
                    &&& old(self).at_cell(c)
                    &&& old(self).cursor_index(c) == rank(old(self).keys(), k as usize)
                    &&& old(self).store()[c.offset.0 as int]->0.keys[c.cell_num as int] == k
                },
                Ok(Err(c)) => {
                    let p = c.offset.0 as int;
                    &&& !has_key(old(self).keys(), k as usize)
                    &&& old(self).layout().pages.contains(p)
                    &&& (old(self).layout().level)(p) == 0
                    &&& (old(self).layout().lo)(p) <= k < (old(self).layout().hi)(p)
                    &&& c.cell_num == rank(old(self).store()[p]->0.keys, k as usize)
                    &&& old(self).cursor_index(c) == rank(old(self).keys(), k as usize)
                    &&& c.end_of_table == (old(self).cursor_index(c) == old(self).entries().len())
                },
                Err(_) => false,
            },
    {
        let key = k as usize;
        let mut off = self.root;
        let mut depth: usize = 0;
        let ghost g = self.layout();
        let ghost tree = self.is_tree();
        let limit = self.pager.num_pages();
        proof {
            self.pager.lemma_wf();
        }
        loop
            invariant
                self.wf(),
                self.same_table(old(self)),
                limit == self.pager.page_count(),
                tree == old(self).is_tree(),
                g == old(self).layout(),
                key == k as usize,
                depth <= limit,
                self.store().len() == limit,
                old(self).leaf_for(0, key, limit as nat) == old(self).leaf_for(
                    off.0 as int,
                    key,
                    (limit - depth) as nat,
                ),
                tree ==> inv(self.store(), self.pager.free(), g),
                tree ==> g.pages.contains(off.0 as int) && (g.lo)(off.0 as int) <= key
                    < (g.hi)(off.0 as int) && depth + (g.level)(off.0 as int) == (g.level)(0),
            decreases limit - depth,
        {
            if depth >= limit {
                return Err(DbError::InvariantViolation);
            }
            proof {
                if tree {
                    assert(page_ok(self.store(), self.pager.free(), g, off.0 as int));
                }
            }
            match self.pager.fetch(off) {
                Ok(()) => {},
                Err(e) => {
                    return Err(e);
                },
            }
            let node = self.pager.node(off);
            match &node.node_type {
                NodeType::Internal(inner) => {
                    let idx = match search_keys(&inner.separators, key) {
                        Ok(i) => {
                            assert(node@.keys[i as int] == key);
                            i + 1
                        },
                        Err(i) => i,
                    };
                    assert(idx == find_child(node@, key));
                    if idx >= inner.children.len() {
                        return Err(DbError::InvariantViolation);
                    }
                    let next = inner.children[idx];
                    proof {
                        if tree {
                            let v = node@;
                            lemma_rank_splits(v.keys, key);
                            assert(child_ok(g, off.0 as int, v, idx as int));
                        }
                    }
                    off = next;
                    depth = depth + 1;
                },
                NodeType::Leaf(_) => {
                    let res = node.find(&key);
                    proof {
                        if let Ok(c) = res {
                            assert(node@.keys[c.cell_num as int] == key);
                        }
                        lemma_rank_splits(node@.keys, key);
                        if tree {
                            let p = off.0 as int;
                            lemma_leaf_rank(self.store(), self.pager.free(), g, p, key);
                            let local = rank(node@.keys, key) as int;
                            lemma_rank_splits(node@.keys, key);
                            lemma_index_end(self.store(), self.pager.free(), g, p, local);
                            if let Ok(c) = res {
                                assert(node@.keys[c.cell_num as int] == key);
                            }
                        }
                    }
                    return Ok(res);
                },
            }
        }
    }

    /// The number of nodes from the root down to the first leaf.
    pub fn tree_height(&mut self) -> (r: Result<usize, DbError>)
        requires
            old(self).wf(),
        ensures
            final(self).wf(),
            final(self).same_table(old(self)),
            match old(self).first_leaf(0, old(self).store().len()) {
                Ok((_, n)) => r == Ok::<usize, DbError>((n + 1) as usize) && n + 1 <= usize::MAX,
                Err(e) => r == Err::<usize, DbError>(e),
            },
            old(self).is_tree() ==> r == Ok::<usize, DbError>(old(self).height() as usize)
                && old(self).height() <= usize::MAX,
    {
        let mut off = self.root;
        let mut depth: usize = 0;
        let ghost g = self.layout();
        let ghost tree = self.is_tree();
        let limit = self.pager.num_pages();
        proof {
            self.pager.lemma_wf();
        }
        loop
            invariant
                self.wf(),
                self.same_table(old(self)),
                limit == self.pager.page_count(),
                tree == old(self).is_tree(),
                g == old(self).layout(),
                depth <= limit,
                self.store().len() == limit,
                same_end_deeper(
                    old(self).first_leaf(0, limit as nat),
                    old(self).first_leaf(off.0 as int, (limit - depth) as nat),
                    depth as nat,
                ),
                tree ==> inv(self.store(), self.pager.free(), g),
                tree ==> g.pages.contains(off.0 as int) && depth + (g.level)(off.0 as int) == (
                g.level)(0),
            decreases limit - depth,
        {
            if depth >= limit {
                return Err(DbError::InvariantViolation);
            }
            proof {
                if tree {
                    assert(page_ok(self.store(), self.pager.free(), g, off.0 as int));
                }
            }
            match self.pager.fetch(off) {
                Ok(()) => {},
                Err(e) => {
                    return Err(e);
                },
            }
            let node = self.pager.node(off);
            match &node.node_type {
                NodeType::Internal(inner) => {
                    if inner.children.len() == 0 {
                        return Err(DbError::InvariantViolation);
                    }
                    let next = inner.children[0];
                    proof {
                        if tree {
                            assert(child_ok(g, off.0 as int, node@, 0));
                        }
                    }
                    off = next;
                    depth = depth + 1;
                },
                NodeType::Leaf(_) => {
                    return Ok(depth + 1);
                },
            }
        }
    }

    /// All rows of the table, in key order: those met on the way from the
    /// first cell of the first leaf along the chain of leaves.
    pub fn select(&mut self) -> (r: Result<Vec<Row>, DbError>)
        requires
            old(self).wf(),
        ensures
            final(self).wf(),
            final(self).same_table(old(self)),
            match old(self).scanned() {
                Ok(views) => r matches Ok(rows) && row_views(rows@) == views,
                Err(e) => r == Err::<Vec<Row>, DbError>(e),
            },
            old(self).is_tree() ==> (r matches Ok(rows) && row_views(rows@) == entry_rows(
                old(self).entries(),
            )),
    {
        let mut rows: Vec<Row> = Vec::new();
        let ghost tree = self.is_tree();
        let ghost all = self.entries();
        proof {
            self.pager.lemma_wf();
            if tree {
                crate::shape::lemma_entries_bound(self.store(), self.pager.free(), self.layout());
            }
        }
        let pages = self.pager.num_pages();
        let limit: usize = if pages <= usize::MAX / (MAX_LEAF_NODES + 1) {
            pages * (MAX_LEAF_NODES + 1)
        } else {
            usize::MAX
        };
        let mut cursor = match self.cursor_start() {
            Ok(cursor) => cursor,
            Err(e) => {
                return Err(e);
            },
        };
        let mut steps: usize = 0;
        let ghost start = cursor;
        assert(rows@ =~= Seq::<Row>::empty());
        assert(row_views(rows@) + Seq::<RowView>::empty() =~= Seq::<RowView>::empty());
        while !cursor.is_at_end_of_table()
            invariant
                self.wf(),
                self.same_table(old(self)),
                tree == old(self).is_tree(),
                all == old(self).entries(),
                steps <= limit,
                limit == scan_fuel(old(self).store().len()),
                old(self).scanned() == old(self).scan_from(start, limit as nat),
                scan_adds(
                    old(self).scan_from(start, limit as nat),
                    row_views(rows@),
                    old(self).scan_from(cursor, (limit - steps) as nat),
                ),
                tree ==> all.len() < limit,
                tree ==> steps <= all.len() && rows.len() == steps && row_views(rows@)
                    == entry_rows(all).subrange(0, steps as int),
                tree ==> if steps < all.len() {
                    old(self).at_cell(cursor) && old(self).cursor_index(cursor) == steps
                } else {
                    cursor.end_of_table
                },
            decreases limit - steps,
        {
            if steps >= limit {
                return Err(DbError::InvariantViolation);
            }
            let row = match cursor.value(self) {
                Ok(Some(row)) => row,
                Ok(None) => {
                    return Err(DbError::InvariantViolation);
                },
                Err(e) => {
                    return Err(e);
                },
            };
            let ghost before = rows@;
            let ghost at = cursor;
            rows.push(row);
            proof {
                assert(row_views(rows@) =~= row_views(before).push(row@));
                let next = advanced(self.store()[at.offset.0 as int]->0, at);
                let rest = old(self).scan_from(next, (limit - steps - 1) as nat);
                if rest is Ok {
                    assert(row_views(before) + (seq![row@] + rest->Ok_0) =~= row_views(
                        before,
                    ).push(row@) + rest->Ok_0);
                }
                if tree {
                    assert(entry_rows(all).subrange(0, steps + 1) =~= entry_rows(all).subrange(
                        0,
                        steps as int,
                    ).push(all[steps as int].1));
                }
            }
            match self.advance_cursor(&mut cursor) {
                Ok(()) => {},
                Err(e) => {
                    return Err(e);
                },
            }
            steps = steps + 1;
        }
        proof {
            assert(row_views(rows@) + Seq::<RowView>::empty() =~= row_views(rows@));
            if tree {
                assert(entry_rows(all).subrange(0, steps as int) =~= entry_rows(all));
            }
        }
        Ok(rows)
    }

    /// A cursor on the first cell of the first leaf; at the end of the
    /// table where the table is empty.
    pub fn cursor_start(&mut self) -> (r: Result<Cursor, DbError>)
        requires
            old(self).wf(),
        ensures
            final(self).wf(),
            final(self).same_table(old(self)),
            r == old(self).started(),
            old(self).is_tree() ==> (r matches Ok(c) && c.cell_num == 0 && c.offset.0
                == old(self).layout().leaves[0] && if old(self).entries().len() == 0 {
                c.end_of_table
            } else {
                old(self).at_cell(c) && old(self).cursor_index(c) == 0
            }),
    {
        self._cursor_start(self.root)
    }

    fn _cursor_start(&mut self, offset: Offset) -> (r: Result<Cursor, DbError>)
        requires
            old(self).wf(),
            offset == Offset(0),
        ensures
            final(self).wf(),
            final(self).same_table(old(self)),
            r == old(self).started(),
            old(self).is_tree() ==> (r matches Ok(c) && c.cell_num == 0 && c.offset.0
                == old(self).layout().leaves[0] && if old(self).entries().len() == 0 {
                c.end_of_table
            } else {
                old(self).at_cell(c) && old(self).cursor_index(c) == 0
            }),
    {
        let mut off = offset;
        let mut depth: usize = 0;
        let ghost g = self.layout();
        let ghost tree = self.is_tree();
        let limit = self.pager.num_pages();
        proof {
            self.pager.lemma_wf();
        }
        loop
            invariant
                self.wf(),
                self.same_table(old(self)),
                limit == self.pager.page_count(),
                tree == old(self).is_tree(),
                g == old(self).layout(),
                depth <= limit,
                self.store().len() == limit,
                same_end(
                    old(self).first_leaf(0, limit as nat),
                    old(self).first_leaf(off.0 as int, (limit - depth) as nat),
                ),
                tree ==> inv(self.store(), self.pager.free(), g),
                tree ==> g.pages.contains(off.0 as int) && (g.lo)(off.0 as int) == 0 && depth
                    + (g.level)(off.0 as int) == (g.level)(0),
            decreases limit - depth,
        {
            if depth >= limit {
                return Err(DbError::InvariantViolation);
            }
            proof {
                if tree {
                    assert(page_ok(self.store(), self.pager.free(), g, off.0 as int));
                }
            }
            match self.pager.fetch(off) {
                Ok(()) => {},
                Err(e) => {
                    return Err(e);
                },
            }
            let node = self.pager.node(off);
            match &node.node_type {
                NodeType::Internal(inner) => {
                    if inner.children.len() == 0 {
                        return Err(DbError::InvariantViolation);
                    }
                    let next = inner.children[0];
                    proof {
                        if tree {
                            assert(child_ok(g, off.0 as int, node@, 0));
                        }
                    }
                    off = next;
                    depth = depth + 1;
                },
                NodeType::Leaf(leaf) => {
                    let end = leaf.children.len() == 0 && leaf.next_leaf.is_none();
                    proof {
                        if tree {
                            let p = off.0 as int;
                            lemma_first_leaf(self.store(), self.pager.free(), g, p);
                            lemma_index_end(self.store(), self.pager.free(), g, p, 0);
                            assert(link_ok(self.store(), g, 0));
                            if leaf.children.len() == 0 {
                                assert(p == 0);
                                lemma_root_leaf_alone(self.store(), self.pager.free(), g);
                            }
                        }
                    }
                    return Ok(Cursor { offset: off, cell_num: 0, end_of_table: end });
                },
            }
        }
    }

    /// Moves the cursor one cell on: to the next cell of its leaf, else to
    /// the first cell of the next leaf, else to the end of the table. Fails
    /// where the cursor's page holds no leaf.
    pub fn advance_cursor(&mut self, cursor: &mut Cursor) -> (r: Result<(), DbError>)
        requires
            old(self).wf(),
        ensures
            final(self).wf(),
            final(self).same_table(old(self)),
            r is Ok <==> leaf_at(old(self).store(), old(cursor).offset.0 as int),
            r matches Ok(()) ==> *final(cursor) == advanced(
                old(self).store()[old(cursor).offset.0 as int]->0,
                *old(cursor),
            ),
            r matches Err(e) ==> *final(cursor) == *old(cursor) && e == old(self).leaf_miss(
                old(cursor).offset.0 as int,
            ),
            old(self).is_tree() && old(self).at_cell(*old(cursor)) ==> r is Ok && if old(
                self,
            ).cursor_index(*old(cursor)) + 1 < old(self).entries().len() {
                old(self).at_cell(*final(cursor)) && old(self).cursor_index(*final(cursor)) == old(
                    self,
                ).cursor_index(*old(cursor)) + 1
            } else {
                final(cursor).end_of_table
            },
    {
        proof {
            self.pager.lemma_wf();
            if self.is_tree() && self.at_cell(*cursor) {
                let g = self.layout();
                let p = cursor.offset.0 as int;
                let store = self.store();
                let free = self.pager.free();
                assert(page_ok(store, free, g, p));
                lemma_leaf_ranges(store, free, g);
                let k = (g.pos)(p);
                assert(link_ok(store, g, k));
                lemma_index_end(store, free, g, p, cursor.cell_num + 1);
                if k + 1 < g.leaves.len() {
                    let q = g.leaves[k + 1];
                    assert(page_ok(store, free, g, q));
                    assert(link_ok(store, g, k + 1));
                    if q == 0 {
                        lemma_root_leaf_alone(store, free, g);
                    }
                }
            }
        }
        let node = match self.pager.get(&cursor.offset) {
            Ok(node) => node,
            Err(e) => {
                return Err(e);
            },
        };
        match &node.node_type {
            NodeType::Internal(_) => Err(DbError::InvariantViolation),
            NodeType::Leaf(leaf) => {
                if cursor.cell_num < usize::MAX && cursor.cell_num + 1 < leaf.children.len() {
                    cursor.cell_num = cursor.cell_num + 1;
                    cursor.end_of_table = false;
                } else {
                    match leaf.next_leaf {
                        Some(next) => {
                            cursor.offset = next;
                            cursor.cell_num = 0;
                            cursor.end_of_table = false;
                        },
                        None => {
                            cursor.end_of_table = true;
                        },
                    }
                }
                Ok(())
            },
        }
    }
}

/// Puts a cell into a leaf that lacks its key. A leaf that was full keeps
/// the cells before the split point and hands out the rest as a new leaf.
fn put_cell(node: &mut Node<usize, Row>, k: usize, value: Row) -> (r: InsertResult<usize, Row>)
    requires
        old(node).is_leaf(),
        old(node).wf(),
        fits_page(old(node)@),
        k <= u32::MAX,
        !has_key(old(node)@.keys, k),
    ensures
        final(node).wf(),
        fits_page(final(node)@),
        final(node).offset == old(node).offset,
        match r {
            InsertResult::DuplicateKey => false,
            InsertResult::Success => {
                &&& old(node)@.keys.len() < MAX_LEAF_NODES
                &&& final(node)@ == with_cell(old(node)@, k, value@)
            },
            InsertResult::ParentSplit(e) => {
                let all = with_cell(old(node)@, k, value@);
                let at = crate::node::split_point(all.keys.len() as int);
                &&& old(node)@.keys.len() == MAX_LEAF_NODES
                &&& final(node)@ == (NodeView {
                    keys: all.keys.subrange(0, at),
                    rows: all.rows.subrange(0, at),
                    ..old(node)@
                })
                &&& e.separator == all.keys[at]
                &&& e.separator <= u32::MAX
                &&& e.tree.is_leaf()
                &&& e.tree.wf()
                &&& e.tree@.keys == all.keys.subrange(at, all.keys.len() as int)
                &&& e.tree@.rows == all.rows.subrange(at, all.rows.len() as int)
                &&& e.tree@.children.len() == 0
                &&& !e.tree.is_root
                &&& e.tree.parent_offset is None
                &&& e.tree@.prev_leaf is None
                &&& e.tree@.next_leaf is None
                &&& forall|t: int| 0 <= t < e.tree@.keys.len() ==> #[trigger] e.tree@.keys[t] <= u32::MAX
            },
        },
{
    let ghost v = node@;
    let ghost before = node.cells();
    let ghost r = rank(cell_keys(before), k) as int;
    let ghost cell = KeyValuePair { key: k, value };
    let ghost all = before.insert(r, cell);
    let ghost at = crate::node::split_point(all.len() as int);
    proof {
        lemma_rank_splits(v.keys, k);
        crate::node::lemma_insert_keeps_order(before, r, cell);
        assert(cell_rows(all) =~= cell_rows(before).insert(r, value@));
        assert forall|t: int| 0 <= t < all.len() implies #[trigger] cell_keys(all)[t] <= u32::MAX by {
            if t < r {
                assert(cell_keys(all)[t] == v.keys[t]);
            } else if t > r {
                assert(cell_keys(all)[t] == v.keys[t - 1]);
            }
        }
    }
    let res = node.insert_leaf(k, value);
    proof {
        if res is ParentSplit {
            let e = res->ParentSplit_0;
            {
                crate::node::lemma_subrange_keeps_order(all, 0, at);
                crate::node::lemma_subrange_keeps_order(all, at, all.len() as int);
                assert(cell_rows(all.subrange(0, at)) =~= cell_rows(all).subrange(0, at));
                assert(cell_rows(all.subrange(at, all.len() as int)) =~= cell_rows(all).subrange(
                    at,
                    all.len() as int,
                ));
                assert forall|t: int| 0 <= t < node@.keys.len() implies #[trigger] node@.keys[t]
                    <= u32::MAX by {
                    assert(node@.keys[t] == cell_keys(all)[t]);
                }
                assert forall|t: int| 0 <= t < e.tree@.keys.len() implies #[trigger] e.tree@.keys[t]
                    <= u32::MAX by {
                    assert(e.tree@.keys[t] == cell_keys(all)[at + t]);
                }
                assert(e.separator == cell_keys(all)[at]);
            }
        } else {
            assert forall|t: int| 0 <= t < node@.keys.len() implies #[trigger] node@.keys[t]
                <= u32::MAX by {
                assert(node@.keys[t] == cell_keys(all)[t]);
            }
        }
    }
    res
}

/// Lets an internal node take up a separator and the child behind it. A
/// node that was full splits on it. `None` where the node is a leaf, holds
/// the separator already, or lacks the child to put the new one behind;
/// the node is then as it was.
fn absorb_child(node: &mut Node<usize, Row>, separator: usize, right: Offset) -> (r: Option<
    Option<SplitEntry<usize, Row>>,
>)
    requires
        old(node).wf(),
        fits_page(old(node)@),
        separator <= u32::MAX,
        right.0 <= u32::MAX,
    ensures
        final(node).wf(),
        fits_page(final(node)@),
        final(node).offset == old(node).offset,
        final(node).is_root == old(node).is_root,
        final(node).parent_offset == old(node).parent_offset,
        r is None <==> old(node)@.is_leaf || has_key(old(node)@.keys, separator)
            || old(node)@.children.len() != old(node)@.keys.len() + 1,
        match r {
            None => final(node)@ == old(node)@,
            Some(None) => {
                &&& old(node)@.keys.len() < MAX_INTERNAL_NODES
                &&& final(node)@ == absorb(
                    old(node)@,
                    rank(old(node)@.keys, separator) as int,
                    separator,
                    right.0 as int,
                )
            },
            Some(Some(e)) => {
                let a = absorb(
                    old(node)@,
                    rank(old(node)@.keys, separator) as int,
                    separator,
                    right.0 as int,
                );
                &&& old(node)@.keys.len() == MAX_INTERNAL_NODES
                &&& is_inner_halves(a, 0, 0, final(node)@, e.tree@)
                &&& e.separator == a.keys[crate::node::internal_split_point(a.keys.len() as int)]
                &&& e.separator <= u32::MAX
                &&& e.tree.wf()
                &&& fits_page(e.tree@)
                &&& e.tree.parent_offset is None
                &&& !e.tree.is_root
                &&& e.tree.offset == Offset(0)
            },
        },
{
    let ghost v = node@;
    let ghost at = rank(v.keys, separator) as int;
    proof {
        lemma_rank_splits(v.keys, separator);
    }
    if node.num_cells >= usize::MAX {
        return None;
    }
    if !node.insert_internal_child(separator, right) {
        return None;
    }
    let ghost a = node@;
    proof {
        assert(a == absorb(v, at, separator, right.0 as int));
        assert forall|t: int| 0 <= t < a.keys.len() implies #[trigger] a.keys[t] <= u32::MAX by {
            if t < at {
                assert(a.keys[t] == v.keys[t]);
            } else if t > at {
                assert(a.keys[t] == v.keys[t - 1]);
            }
        }
        assert forall|t: int| 0 <= t < a.children.len() implies (#[trigger] a.children[t]).0
            <= u32::MAX by {
            if t < at + 1 {
                assert(a.children[t] == v.children[t]);
            } else if t > at + 1 {
                assert(a.children[t] == v.children[t - 1]);
            }
        }
    }
    if node.num_cells <= MAX_INTERNAL_NODES {
        return Some(None);
    }
    let e = node.split_internal();
    proof {
        let cut = crate::node::internal_split_point(a.keys.len() as int);
        assert forall|t: int| 0 <= t < node@.keys.len() implies #[trigger] node@.keys[t]
            <= u32::MAX by {
            assert(node@.keys[t] == a.keys[t]);
        }
        assert forall|t: int| 0 <= t < node@.children.len() implies (#[trigger] node@.children[t]).0
            <= u32::MAX by {
            assert(node@.children[t] == a.children[t]);
        }
        assert forall|t: int| 0 <= t < e.tree@.keys.len() implies #[trigger] e.tree@.keys[t]
            <= u32::MAX by {
            assert(e.tree@.keys[t] == a.keys[cut + 1 + t]);
        }
        assert forall|t: int| 0 <= t < e.tree@.children.len() implies (
        #[trigger] e.tree@.children[t]).0 <= u32::MAX by {
            assert(e.tree@.children[t] == a.children[cut + 1 + t]);
        }
        assert(a.keys[cut] <= u32::MAX);
    }
    Some(Some(e))
}

/// The child that a search for `key` takes at an internal node: the one
/// behind the separator that is the key, else the one before the first
/// separator above it.
pub open spec fn find_child(v: NodeView, key: usize) -> int {
    if has_key(v.keys, key) {
        rank(v.keys, key) as int + 1
    } else {
        rank(v.keys, key) as int
    }
}

/// Where `key` stands in a leaf: `Ok` with a cursor on its cell, else `Err`
/// with a cursor at the cell before which it would be inserted, which is at
/// the end of the table where it stands behind the last cell of a leaf
/// without a next leaf.
pub open spec fn leaf_found(v: NodeView, key: usize) -> Result<Cursor, Cursor> {
    if has_key(v.keys, key) {
        Ok(Cursor { offset: v.offset, cell_num: rank(v.keys, key) as usize, end_of_table: false })
    } else {
        Err(
            Cursor {
                offset: v.offset,
                cell_num: rank(v.keys, key) as usize,
                end_of_table: v.next_leaf is None && rank(v.keys, key) == v.keys.len(),
            },
        )
    }
}

/// Whether two ways down end at the same leaf or in the same error.
pub open spec fn same_end(a: Result<(int, nat), DbError>, b: Result<(int, nat), DbError>) -> bool {
    match a {
        Ok((p, _)) => b is Ok && b->Ok_0.0 == p,
        Err(e) => b == Err::<(int, nat), DbError>(e),
    }
}

/// Whether two ways down end at the same leaf, the first `gap` steps
/// longer than the second, or in the same error.
pub open spec fn same_end_deeper(
    a: Result<(int, nat), DbError>,
    b: Result<(int, nat), DbError>,
    gap: nat,
) -> bool {
    match a {
        Ok((p, n)) => b == Ok::<(int, nat), DbError>((p, (n - gap) as nat)) && n >= gap,
        Err(e) => b == Err::<(int, nat), DbError>(e),
    }
}

/// The cursor `c` on the leaf `v` moved one cell on: to the next cell of
/// the leaf, else to the first cell of the next leaf, else to the end of the
/// table.
pub open spec fn advanced(v: NodeView, c: Cursor) -> Cursor {
    if c.cell_num < usize::MAX && c.cell_num + 1 < v.keys.len() {
        Cursor { offset: c.offset, cell_num: (c.cell_num + 1) as usize, end_of_table: false }
    } else {
        match v.next_leaf {
            Some(next) => Cursor { offset: next, cell_num: 0, end_of_table: false },
            None => Cursor { offset: c.offset, cell_num: c.cell_num, end_of_table: true },
        }
    }
}

/// The steps that a scan of a table of `pages` pages may take: one for each
/// cell that the pages can hold, and one more for each page.
pub open spec fn scan_fuel(pages: nat) -> nat {
    if pages <= (usize::MAX as int) / (MAX_LEAF_NODES as int + 1) {
        (pages * (MAX_LEAF_NODES as int + 1)) as nat
    } else {
        usize::MAX as nat
    }
}

/// Whether the rows `done` and then the outcome `rest` make the outcome
/// `total`.
pub open spec fn scan_adds(
    total: Result<Seq<RowView>, DbError>,
    done: Seq<RowView>,
    rest: Result<Seq<RowView>, DbError>,
) -> bool {
    match rest {
        Ok(more) => total == Ok::<Seq<RowView>, DbError>(done + more),
        Err(e) => total == Err::<Seq<RowView>, DbError>(e),
    }
}

/// What each of a run of rows holds.
pub open spec fn row_views(rows: Seq<Row>) -> Seq<RowView> {
    Seq::new(rows.len(), |i: int| rows[i]@)
}

/// What an insert below the page `p` of a tree has done when it returns
/// `res`: it ended without splitting `p`, or with `p` split and its upper
/// half handed out; it neither fails nor finds the key.
pub open spec fn insert_outcome(
    before: &BTree,
    after: &BTree,
    g: Shape,
    p: int,
    slot: int,
    key: usize,
    row: RowView,
    res: Result<InsertResult<usize, Row>, DbError>,
    g2: Shape,
) -> bool {
    match res {
        Ok(InsertResult::Success) => descended(
            before.store(),
            before.pager().free(),
            g,
            p,
            key,
            row,
            before.pager().room(),
            after.store(),
            after.pager().free(),
            g2,
            after.pager().room(),
        ),
        Ok(InsertResult::ParentSplit(e)) => descended_split(
            before.store(),
            before.pager().free(),
            g,
            p,
            slot,
            key,
            row,
            before.pager().room(),
            after.store().update(e.tree.offset.0 as int, Some(e.tree@)),
            after.pager().free(),
            g2,
            after.pager().room(),
            e.separator,
            e.tree.offset.0 as int,
        ),
        _ => false,
    }
}

/// What replacing a root that has split does to the store: the old root
/// lives at the page allotted for it, page 0 holds the new root, and what
/// split off the old root is committed.
pub open spec fn grown(before: &BTree, now: &BTree, entry: SplitEntry<usize, Row>) -> bool {
    let store = before.store();
    let free = before.pager().free();
    let n = entry.tree.offset.0 as int;
    let base = allot_store(store.update(n, Some(entry.tree@)), free);
    let at = allot_page(store, free);
    let after = now.store();
    &&& after.len() == base.len()
    &&& after[at] is Some
    &&& after[n] is Some
    &&& after[0] is Some
    &&& is_grown(base, entry.separator, n, at, after[at]->0, after[n]->0, after[0]->0)
    &&& after == base.update(at, after[at]).update(n, after[n]).update(0, after[0])
    &&& now.pager().free() == allot_free(free)
    &&& now.pager().room() + 1 == before.pager().room()
}

/// Whether a root that has split can be replaced: there is a root, what
/// split off it lives at another page and is of the root's kind, and a
/// page other than that one is left for the old root.
pub open spec fn can_grow(tree: &BTree, entry: SplitEntry<usize, Row>) -> bool {
    let store = tree.store();
    &&& store.len() >= 1
    &&& store[0] is Some
    &&& entry.tree.offset.0 != 0
    &&& store[0]->0.is_leaf == entry.tree@.is_leaf
    &&& tree.pager().room() > 0
    &&& allot_page(store, tree.pager().free()) != entry.tree.offset.0
    &&& allot_page(store, tree.pager().free()) != 0
}

/// An insert below a page of a tree splits no more pages than the page
/// stands levels above the leaves, and one.
pub proof fn lemma_pages_bound(store: Store, free: Seq<usize>, g: Shape, p: int, key: usize)
    requires
        inv(store, free, g),
        g.pages.contains(p),
    ensures
        splits_below(store, p, key, (g.level)(p)) <= (g.level)(p) + 1,
        p == 0 ==> pages_for(store, key, (g.level)(0)) <= store.len() + 1,
    decreases (g.level)(p),
{
    assert(page_ok(store, free, g, p));
    let v = store[p]->0;
    if !v.is_leaf {
        let i = rank(v.keys, key) as int;
        lemma_rank_splits(v.keys, key);
        assert(child_ok(g, p, v, i));
        lemma_pages_bound(store, free, g, v.children[i].0 as int, key);
    }
}

/// The rank of a key is a place in the sequence or just behind it.
pub proof fn lemma_rank_splits_len(keys: Seq<usize>, key: usize)
    ensures
        rank(keys, key) <= keys.len(),
    decreases keys.len(),
{
    if keys.len() > 0 {
        lemma_rank_splits_len(keys.drop_last(), key);
    }
}

/// Whether what split off a page is fit to be committed: it is consistent,
/// fits a page, lives at an allotted offset, and records no parent yet.
pub open spec fn split_entry_ok(tree: &BTree, e: SplitEntry<usize, Row>) -> bool {
    &&& e.separator <= u32::MAX
    &&& e.tree.wf()
    &&& fits_page(e.tree@)
    &&& e.tree.offset.0 < tree.store().len()
    &&& !e.tree.is_root
    &&& e.tree.parent_offset is None
}

/// Whether the store holds no node at `p`, or a leaf.
pub open spec fn leaf_or_missing(store: Store, p: int) -> bool {
    !(0 <= p < store.len()) || store[p] is None || store[p]->0.is_leaf
}

/// Whether an internal node can take up the separator `sep`: it lacks it
/// and has one child more than separators.
pub open spec fn takes(u: NodeView, sep: usize) -> bool {
    &&& !has_key(u.keys, sep)
    &&& u.children.len() == u.keys.len() + 1
}

/// Whether the node at `p` can take up the separator `sep` with a new
/// child: it is an internal node that can, and where it is full, a page is
/// left for its upper half.
pub open spec fn can_take_up(tree: &BTree, p: int, sep: usize, n: int) -> bool {
    &&& !leaf_or_missing(tree.store(), p)
    &&& n != p
    &&& takes(tree.store()[p]->0, sep)
    &&& tree.store()[p]->0.keys.len() >= MAX_INTERNAL_NODES ==> tree.pager().room() > 0
}

/// The page of the leaf behind a leaf, where it records one.
pub open spec fn next_page(v: NodeView) -> int {
    match v.next_leaf {
        Some(o) => o.0 as int,
        None => -1,
    }
}

/// Whether a row of key `key` can be put into the leaf at offset `p`: there
/// is a leaf, and where it is full and lacks the key, there is a page left
/// for its upper half and the node behind it is a leaf.
pub open spec fn leaf_insert_fits(tree: &BTree, p: int, key: usize) -> bool {
    let store = tree.store();
    &&& leaf_at(store, p)
    &&& store[p]->0.keys.len() >= MAX_LEAF_NODES && !has_key(store[p]->0.keys, key) ==> {
        &&& tree.pager().room() > 0
        &&& store[p]->0.next_leaf is Some ==> leaf_at(store, next_page(store[p]->0))
    }
}

/// The error of putting a row of key `key` into the leaf at offset `p`
/// where it cannot be put.
pub open spec fn leaf_insert_error(tree: &BTree, p: int, key: usize) -> DbError {
    let store = tree.store();
    if !(0 <= p < store.len() && store[p] is Some) {
        tree.pager().miss_error(p)
    } else if !store[p]->0.is_leaf {
        DbError::InvariantViolation
    } else {
        let next = store[p]->0.next_leaf;
        let nx = next_page(store[p]->0);
        if next is Some && !(nx < store.len() && store[nx] is Some) {
            tree.pager().miss_error(nx)
        } else if next is Some && !store[nx]->0.is_leaf {
            DbError::InvariantViolation
        } else {
            DbError::TableFull
        }
    }
}

/// Whether the store holds a leaf at offset `p`.
pub open spec fn leaf_at(store: Store, p: int) -> bool {
    &&& 0 <= p < store.len()
    &&& store[p] is Some
    &&& store[p]->0.is_leaf
}

/// A single empty root leaf is a tree.
pub proof fn lemma_fresh_tree(store: Store, free: Seq<usize>)
    requires
        store.len() == 1,
        free.len() == 0,
        store[0] matches Some(v) && v.is_leaf && v.is_root && v.offset == Offset(0) && v.keys.len()
            == 0 && v.rows.len() == 0 && v.prev_leaf is None && v.next_leaf is None,
    ensures
        tree_in(store, free),
{
    let g = Shape {
        pages: set![0int],
        level: |p: int| 0nat,
        lo: |p: int| 0int,
        hi: |p: int| key_ceiling(),
        parent: |p: int| 0int,
        pos: |p: int| 0int,
        leaves: seq![0int],
    };
    assert(page_ok(store, free, g, 0));
    assert(link_ok(store, g, 0));
    assert(inv(store, free, g));
}

} // verus!
