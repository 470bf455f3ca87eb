//! The page: the 4096 bytes that store one node, and the mapping between
//! the two.

use vstd::prelude::*;
use crate::bytes::{
    le_bytes,
    le_value,
    lemma_le_value_frame,
    lemma_le_value_of_splice,
    read_u32,
    splice,
    write_bytes,
    write_u32,
};
use crate::datastore::{
    ROWS_PER_PAGE,
    ROW_SIZE,
    Row,
    RowView,
    is_row,
    lemma_row_round_trip,
    row_bytes,
    row_of_bytes,
    storable,
};
use crate::error::DbError;
use crate::node::{MAX_INTERNAL_NODES, MAX_LEAF_NODES, Node, NodeView, cell_rows};
use crate::node_type::{KeyValuePair, NodeType};
use crate::pager::Offset;
use crate::search::{cell_keys, strictly_ascending};

verus! {

/// The bytes of a page.
pub const PAGE_SIZE: usize = 4096;

/// The pages a table may take up.
pub const TABLE_MAX_PAGES: usize = 100;

/// Where a page keeps the kind of its node: 0 for a leaf, 1 for an internal
/// node.
pub const NODE_TYPE_OFFSET: usize = 0;

/// Where a page keeps whether its node is the root.
pub const IS_ROOT_OFFSET: usize = 1;

/// Where a page keeps the offset of its node's parent.
pub const PARENT_OFFSET: usize = 2;

/// Where a page keeps the count of its cells.
pub const NUM_CELLS_OFFSET: usize = 6;

/// Where an internal page keeps the number of its separators.
pub const RIGHTMOST_CHILD_OFFSET: usize = 10;

/// Where the cells of an internal page start.
pub const INTERNAL_CHILDREN_OFFSET: usize = 14;

/// The bytes of a cell of an internal page.
pub const INTERNAL_CHILD_SIZE: usize = 12;

/// Where the cells of a leaf page start.
pub const CELL_OFFSET: usize = 10;

/// The bytes of the key in a cell of a leaf page.
pub const CELL_KEY_SIZE: usize = 4;

/// The bytes of the row in a cell of a leaf page.
pub const CELL_VALUE_SIZE: usize = 291;

/// The bytes of a cell of a leaf page.
pub const CELL_SIZE: usize = 295;

/// Where a leaf page keeps the offset of the leaf before it.
pub const PREV_LEAF_OFFSET: usize = 4088;

/// Where a leaf page keeps the offset of the leaf after it.
pub const NEXT_LEAF_OFFSET: usize = 4092;

/// The stored number that stands for "no page".
pub const NO_OFFSET: u32 = 0xFFFF_FFFF;

/// One page of the backing file, as bytes.
pub struct Page(Vec<u8>);

impl View for Page {
    type V = Seq<u8>;

    closed spec fn view(&self) -> Seq<u8> {
        self.0@
    }
}

/// A page of zero bytes.
pub open spec fn blank_page() -> Seq<u8> {
    Seq::new(PAGE_SIZE as nat, |i: int| 0u8)
}

/// The number a page stores for an optional offset.
pub open spec fn raw_offset(offset: Option<Offset>) -> u32 {
    match offset {
        Some(o) => o.0 as u32,
        None => NO_OFFSET,
    }
}

/// The optional offset that a stored number stands for.
pub open spec fn offset_of_raw(raw: u32) -> Option<Offset> {
    if raw == NO_OFFSET {
        None
    } else {
        Some(Offset(raw as usize))
    }
}

/// Where the cell `i` of a leaf page starts.
pub open spec fn cell_at(i: int) -> int {
    CELL_OFFSET + i * CELL_SIZE
}

/// Where the cell `i` of an internal page starts: a child, the separator
/// above it, and the child on the separator's other side.
pub open spec fn triple_at(i: int) -> int {
    INTERNAL_CHILDREN_OFFSET + i * INTERNAL_CHILD_SIZE
}

/// Whether a node can be written to a page: its counts are within the
/// page's room and its keys and offsets fit their four bytes.
pub open spec fn fits_page(v: NodeView) -> bool {
    &&& v.is_root ==> v.parent_offset is None
    &&& v.parent_offset matches Some(p) ==> p.0 < NO_OFFSET
    &&& forall|i: int| 0 <= i < v.keys.len() ==> #[trigger] v.keys[i] <= u32::MAX
    &&& if v.is_leaf {
        &&& v.keys.len() <= MAX_LEAF_NODES
        &&& v.rows.len() == v.keys.len()
        &&& v.children.len() == 0
        &&& v.prev_leaf matches Some(p) ==> p.0 < NO_OFFSET
        &&& v.next_leaf matches Some(p) ==> p.0 < NO_OFFSET
    } else {
        &&& v.keys.len() <= MAX_INTERNAL_NODES
        &&& v.rows.len() == 0
        &&& v.children.len() == if v.keys.len() == 0 { 0 } else { v.keys.len() + 1 }
        &&& v.prev_leaf is None
        &&& v.next_leaf is None
        &&& forall|i: int| 0 <= i < v.children.len() ==> (#[trigger] v.children[i]).0 <= u32::MAX
    }
}

/// The first ten bytes of a node's page over zero bytes: kind, root flag,
/// parent and count.
pub open spec fn header_bytes(v: NodeView) -> Seq<u8> {
    let kind = if v.is_leaf { 0u8 } else { 1u8 };
    let root = if v.is_root { 1u8 } else { 0u8 };
    let b = blank_page().update(NODE_TYPE_OFFSET as int, kind).update(IS_ROOT_OFFSET as int, root);
    let b = splice(b, PARENT_OFFSET as int, le_bytes(raw_offset(v.parent_offset)));
    splice(b, NUM_CELLS_OFFSET as int, le_bytes(v.keys.len() as u32))
}

/// `base` with the first `n` cells of the leaf `v` written into it.
pub open spec fn with_cells(v: NodeView, base: Seq<u8>, n: nat) -> Seq<u8>
    decreases n,
{
    if n == 0 {
        base
    } else {
        let i = (n - 1) as int;
        let b = with_cells(v, base, (n - 1) as nat);
        let b = splice(b, cell_at(i), le_bytes(v.keys[i] as u32));
        splice(b, cell_at(i) + CELL_KEY_SIZE, row_bytes(v.rows[i]))
    }
}

/// `base` with the first `n` cells of the internal node `v` written into it.
pub open spec fn with_triples(v: NodeView, base: Seq<u8>, n: nat) -> Seq<u8>
    decreases n,
{
    if n == 0 {
        base
    } else {
        let i = (n - 1) as int;
        let b = with_triples(v, base, (n - 1) as nat);
        let b = splice(b, triple_at(i), le_bytes(v.children[i].0 as u32));
        let b = splice(b, triple_at(i) + 4, le_bytes(v.keys[i] as u32));
        splice(b, triple_at(i) + 8, le_bytes(v.children[i + 1].0 as u32))
    }
}

/// The page that stores a node. Leaf: the header, the cells from byte 10 on
/// (key, then row), and the two neighbours in the page's last eight bytes.
/// Internal node: the header, the number of separators at byte 10, and from
/// byte 14 on one cell for each separator. All other bytes are zero.
pub open spec fn page_bytes(v: NodeView) -> Seq<u8> {
    if v.is_leaf {
        let b = splice(header_bytes(v), PREV_LEAF_OFFSET as int, le_bytes(raw_offset(v.prev_leaf)));
        let b = splice(b, NEXT_LEAF_OFFSET as int, le_bytes(raw_offset(v.next_leaf)));
        with_cells(v, b, v.keys.len())
    } else {
        let b = splice(header_bytes(v), RIGHTMOST_CHILD_OFFSET as int, le_bytes(v.keys.len() as u32));
        with_triples(v, b, v.keys.len())
    }
}

/// The keys that a leaf page of `n` cells stores.
pub open spec fn leaf_keys_of(bytes: Seq<u8>, n: nat) -> Seq<usize> {
    Seq::new(n, |i: int| le_value(bytes, cell_at(i)) as usize)
}

/// The bytes of the row in cell `i` of a leaf page.
pub open spec fn cell_row_bytes(bytes: Seq<u8>, i: int) -> Seq<u8> {
    bytes.subrange(cell_at(i) + CELL_KEY_SIZE, cell_at(i) + CELL_SIZE)
}

/// The rows that a leaf page of `n` cells stores.
pub open spec fn leaf_rows_of(bytes: Seq<u8>, n: nat) -> Seq<RowView> {
    Seq::new(n, |i: int| row_of_bytes(cell_row_bytes(bytes, i)))
}

/// The separators that an internal page of `n` cells stores.
pub open spec fn separators_of(bytes: Seq<u8>, n: nat) -> Seq<usize> {
    Seq::new(n, |i: int| le_value(bytes, triple_at(i) + 4) as usize)
}

/// The children that an internal page of `n` cells stores: the left child of
/// the first cell, then each cell's right child.
pub open spec fn children_of(bytes: Seq<u8>, n: nat) -> Seq<Offset> {
    if n == 0 {
        Seq::empty()
    } else {
        Seq::new(
            n + 1,
            |i: int|
                if i == 0 {
                    Offset(le_value(bytes, triple_at(0)) as usize)
                } else {
                    Offset(le_value(bytes, triple_at(i - 1) + 8) as usize)
                },
        )
    }
}

/// Whether a page stores a node: it is of a known kind, its count is within
/// the kind's limit, its keys ascend strictly, and each cell of a leaf holds
/// a row.
pub open spec fn decodes(bytes: Seq<u8>) -> bool {
    &&& bytes.len() == PAGE_SIZE
    &&& if bytes[NODE_TYPE_OFFSET as int] == 0 {
        let n = le_value(bytes, NUM_CELLS_OFFSET as int);
        &&& n <= MAX_LEAF_NODES
        &&& strictly_ascending(leaf_keys_of(bytes, n as nat))
        &&& forall|i: int| 0 <= i < n ==> is_row(#[trigger] cell_row_bytes(bytes, i))
    } else {
        let n = le_value(bytes, RIGHTMOST_CHILD_OFFSET as int);
        &&& bytes[NODE_TYPE_OFFSET as int] == 1
        &&& n <= MAX_INTERNAL_NODES
        &&& strictly_ascending(separators_of(bytes, n as nat))
    }
}

/// The node that a page stores, taken to live at `offset`.
pub open spec fn node_of_page(bytes: Seq<u8>, offset: Offset) -> NodeView {
    let is_root = bytes[IS_ROOT_OFFSET as int] == 1;
    let parent_offset = if is_root {
        None
    } else {
        offset_of_raw(le_value(bytes, PARENT_OFFSET as int))
    };
    if bytes[NODE_TYPE_OFFSET as int] == 0 {
        let n = le_value(bytes, NUM_CELLS_OFFSET as int) as nat;
        NodeView {
            is_root,
            parent_offset,
            offset,
            is_leaf: true,
            keys: leaf_keys_of(bytes, n),
            rows: leaf_rows_of(bytes, n),
            children: Seq::empty(),
            prev_leaf: offset_of_raw(le_value(bytes, PREV_LEAF_OFFSET as int)),
            next_leaf: offset_of_raw(le_value(bytes, NEXT_LEAF_OFFSET as int)),
        }
    } else {
        let n = le_value(bytes, RIGHTMOST_CHILD_OFFSET as int) as nat;
        NodeView {
            is_root,
            parent_offset,
            offset,
            is_leaf: false,
            keys: separators_of(bytes, n),
            rows: Seq::empty(),
            children: children_of(bytes, n),
            prev_leaf: None,
            next_leaf: None,
        }
    }
}

impl Page {
    /// Every page is of `PAGE_SIZE` bytes.
    pub open spec fn wf(&self) -> bool {
        self@.len() == PAGE_SIZE
    }

    /// A page of zero bytes.
    pub fn new() -> (page: Self)
        ensures
            page.wf(),
            page@ == blank_page(),
    {
        let mut data: Vec<u8> = Vec::new();
        let mut i: usize = 0;
        while i < PAGE_SIZE
            invariant
                i <= PAGE_SIZE,
                data.len() == i,
                forall|j: int| 0 <= j < i ==> data[j] == 0,
            decreases PAGE_SIZE - i,
        {
            data.push(0);
            i += 1;
        }
        assert(data@ =~= blank_page());
        Page(data)
    }

    /// The page of the given bytes.
    pub fn load(p: Vec<u8>) -> (page: Self)
        requires
            p.len() == PAGE_SIZE,
        ensures
            page.wf(),
            page@ == p@,
    {
        Page(p)
    }

    /// Stores `row` in the slot `slot` of a page that holds rows only.
    pub fn insert(&mut self, row: Row, slot: usize)
        requires
            old(self).wf(),
            slot < ROWS_PER_PAGE,
        ensures
            final(self).wf(),
            final(self)@ == splice(old(self)@, slot * ROW_SIZE, row_bytes(row@)),
    {
        let min = slot * ROW_SIZE;
        let ser = row.serialize();
        write_bytes(&mut self.0, min, ser.as_slice());
    }

    /// The row in the slot `slot` of a page that holds rows only.
    pub fn select(&self, slot: usize) -> (row: Row)
        requires
            self.wf(),
            slot < ROWS_PER_PAGE,
            is_row(self@.subrange(slot * ROW_SIZE, slot * ROW_SIZE + ROW_SIZE)),
        ensures
            row@ == row_of_bytes(self@.subrange(slot * ROW_SIZE, slot * ROW_SIZE + ROW_SIZE)),
    {
        let min = slot * ROW_SIZE;
        match Row::read(self.0.as_slice(), min) {
            Some(row) => row,
            None => Row { id: 0, username: String::new(), email: String::new() },
        }
    }

    /// Appends the page's bytes to `out`.
    pub fn write(&self, out: &mut Vec<u8>)
        requires
            self.wf(),
        ensures
            final(out)@ == old(out)@ + self@,
    {
        let mut i: usize = 0;
        while i < PAGE_SIZE
            invariant
                i <= PAGE_SIZE,
                self.wf(),
                out@ == old(out)@ + self@.subrange(0, i as int),
            decreases PAGE_SIZE - i,
        {
            out.push(self.0[i]);
            i += 1;
            assert(out@ =~= old(out)@ + self@.subrange(0, i as int));
        }
        assert(self@.subrange(0, i as int) =~= self@);
    }

    /// The page's bytes.
    pub fn as_bytes(&self) -> (r: &[u8])
        ensures
            r@ == self@,
    {
        self.0.as_slice()
    }

    /// Whether the page stores a leaf.
    pub fn is_leaf_node(&self) -> (r: bool)
        requires
            self.wf(),
        ensures
            r == (self@[NODE_TYPE_OFFSET as int] == 0),
    {
        self.0[NODE_TYPE_OFFSET] == 0
    }

    /// Whether the page stores the root.
    pub fn is_root_node(&self) -> (r: bool)
        requires
            self.wf(),
        ensures
            r == (self@[IS_ROOT_OFFSET as int] == 1),
    {
        self.0[IS_ROOT_OFFSET] == 1
    }

    pub fn set_root_node(&mut self, is_root_node: bool)
        requires
            old(self).wf(),
        ensures
            final(self).wf(),
            final(self)@ == old(self)@.update(
                IS_ROOT_OFFSET as int,
                if is_root_node { 1u8 } else { 0u8 },
            ),
    {
        if is_root_node {
            self.0[IS_ROOT_OFFSET] = 1;
        } else {
            self.0[IS_ROOT_OFFSET] = 0;
        }
    }

    fn set_kind(&mut self, leaf: bool)
        requires
            old(self).wf(),
        ensures
            final(self).wf(),
            final(self)@ == old(self)@.update(NODE_TYPE_OFFSET as int, if leaf { 0u8 } else { 1u8 }),
    {
        if leaf {
            self.0[NODE_TYPE_OFFSET] = 0;
        } else {
            self.0[NODE_TYPE_OFFSET] = 1;
        }
    }

    fn offset_at(&self, at: usize) -> (r: Option<Offset>)
        requires
            self.wf(),
            at + 4 <= PAGE_SIZE,
        ensures
            r == offset_of_raw(le_value(self@, at as int)),
    {
        let raw = read_u32(self.0.as_slice(), at);
        if raw == NO_OFFSET {
            None
        } else {
            Some(Offset(raw as usize))
        }
    }

    fn set_offset_at(&mut self, at: usize, offset: Option<Offset>)
        requires
            old(self).wf(),
            at + 4 <= PAGE_SIZE,
            offset matches Some(o) ==> o.0 < NO_OFFSET,
        ensures
            final(self).wf(),
            final(self)@ == splice(old(self)@, at as int, le_bytes(raw_offset(offset))),
    {
        let raw: u32 = match offset {
            Some(o) => o.0 as u32,
            None => NO_OFFSET,
        };
        write_u32(&mut self.0, at, raw);
    }

    /// The parent that the page records, if any.
    pub fn parent_offset(&self) -> (r: Option<Offset>)
        requires
            self.wf(),
        ensures
            r == offset_of_raw(le_value(self@, PARENT_OFFSET as int)),
    {
        self.offset_at(PARENT_OFFSET)
    }

    pub fn set_parent_offset(&mut self, parent_offset: Option<Offset>)
        requires
            old(self).wf(),
            parent_offset matches Some(o) ==> o.0 < NO_OFFSET,
        ensures
            final(self).wf(),
            final(self)@ == splice(
                old(self)@,
                PARENT_OFFSET as int,
                le_bytes(raw_offset(parent_offset)),
            ),
    {
        self.set_offset_at(PARENT_OFFSET, parent_offset)
    }

    /// The leaf before this one that the page records, if any.
    pub fn prev_leaf(&self) -> (r: Option<Offset>)
        requires
            self.wf(),
        ensures
            r == offset_of_raw(le_value(self@, PREV_LEAF_OFFSET as int)),
    {
        self.offset_at(PREV_LEAF_OFFSET)
    }

    pub fn set_prev_leaf(&mut self, prev: Option<Offset>)
        requires
            old(self).wf(),
            prev matches Some(o) ==> o.0 < NO_OFFSET,
        ensures
            final(self).wf(),
            final(self)@ == splice(old(self)@, PREV_LEAF_OFFSET as int, le_bytes(raw_offset(prev))),
    {
        self.set_offset_at(PREV_LEAF_OFFSET, prev)
    }

    /// The leaf after this one that the page records, if any.
    pub fn next_leaf(&self) -> (r: Option<Offset>)
        requires
            self.wf(),
        ensures
            r == offset_of_raw(le_value(self@, NEXT_LEAF_OFFSET as int)),
    {
        self.offset_at(NEXT_LEAF_OFFSET)
    }

    pub fn set_next_leaf(&mut self, next: Option<Offset>)
        requires
            old(self).wf(),
            next matches Some(o) ==> o.0 < NO_OFFSET,
        ensures
            final(self).wf(),
            final(self)@ == splice(old(self)@, NEXT_LEAF_OFFSET as int, le_bytes(raw_offset(next))),
    {
        self.set_offset_at(NEXT_LEAF_OFFSET, next)
    }

    /// The count in the page's header.
    pub fn num_cells(&self) -> (r: usize)
        requires
            self.wf(),
        ensures
            r == le_value(self@, NUM_CELLS_OFFSET as int),
    {
        read_u32(self.0.as_slice(), NUM_CELLS_OFFSET) as usize
    }

    pub fn set_num_cells(&mut self, num_cells: usize)
        requires
            old(self).wf(),
            num_cells <= u32::MAX,
        ensures
            final(self).wf(),
            final(self)@ == splice(old(self)@, NUM_CELLS_OFFSET as int, le_bytes(num_cells as u32)),
    {
        write_u32(&mut self.0, NUM_CELLS_OFFSET, num_cells as u32);
    }

    /// The number of separators that an internal page records.
    pub fn rightmost_child(&self) -> (r: usize)
        requires
            self.wf(),
        ensures
            r == le_value(self@, RIGHTMOST_CHILD_OFFSET as int),
    {
        read_u32(self.0.as_slice(), RIGHTMOST_CHILD_OFFSET) as usize
    }

    pub fn set_rightmost_child(&mut self, rightmost_child: usize)
        requires
            old(self).wf(),
            rightmost_child <= u32::MAX,
        ensures
            final(self).wf(),
            final(self)@ == splice(
                old(self)@,
                RIGHTMOST_CHILD_OFFSET as int,
                le_bytes(rightmost_child as u32),
            ),
    {
        write_u32(&mut self.0, RIGHTMOST_CHILD_OFFSET, rightmost_child as u32);
    }

    /// Writes the cell `slot` of an internal page: the child to the left of
    /// the separator `key`, the separator, and the child to its right.
    pub fn set_internal_child(&mut self, slot: usize, key: usize, left: Offset, right: Offset)
        requires
            old(self).wf(),
            slot < MAX_INTERNAL_NODES,
            key <= u32::MAX,
            left.0 <= u32::MAX,
            right.0 <= u32::MAX,
        ensures
            final(self).wf(),
            final(self)@ == splice(
                splice(
                    splice(old(self)@, triple_at(slot as int), le_bytes(left.0 as u32)),
                    triple_at(slot as int) + 4,
                    le_bytes(key as u32),
                ),
                triple_at(slot as int) + 8,
                le_bytes(right.0 as u32),
            ),
    {
        let child_left = INTERNAL_CHILDREN_OFFSET + (slot * INTERNAL_CHILD_SIZE);
        let child_key = child_left + 4;
        let child_right = child_key + 4;
        write_u32(&mut self.0, child_left, left.0 as u32);
        write_u32(&mut self.0, child_key, key as u32);
        write_u32(&mut self.0, child_right, right.0 as u32);
    }

    /// Writes the cell `cell_num` of a leaf page: the key, then the row.
    pub fn set_cell(&mut self, cell_num: usize, key: usize, value: &Row)
        requires
            old(self).wf(),
            cell_num < MAX_LEAF_NODES,
            key <= u32::MAX,
        ensures
            final(self).wf(),
            final(self)@ == splice(
                splice(old(self)@, cell_at(cell_num as int), le_bytes(key as u32)),
                cell_at(cell_num as int) + CELL_KEY_SIZE,
                row_bytes(value@),
            ),
    {
        let cell_key = CELL_OFFSET + (cell_num * CELL_SIZE);
        let cell_val = cell_key + CELL_KEY_SIZE;
        write_u32(&mut self.0, cell_key, key as u32);
        let ser = value.serialize();
        write_bytes(&mut self.0, cell_val, ser.as_slice());
    }

    /// The page that stores `node`.
    pub fn from_node(node: &Node<usize, Row>) -> (page: Self)
        requires
            fits_page(node@),
        ensures
            page.wf(),
            page@ == page_bytes(node@),
    {
        let ghost v = node@;
        let mut page = Page::new();
        match &node.node_type {
            NodeType::Leaf(leaf) => {
                page.set_kind(true);
                page.set_root_node(node.is_root);
                page.set_parent_offset(node.parent_offset);
                page.set_num_cells(leaf.children.len());
                page.set_prev_leaf(leaf.last_leaf);
                page.set_next_leaf(leaf.next_leaf);
                let ghost base = page@;
                let mut i: usize = 0;
                while i < leaf.children.len()
                    invariant
                        i <= leaf.children.len(),
                        leaf.children.len() <= MAX_LEAF_NODES,
                        v == node@,
                        v.keys == cell_keys(leaf.children@),
                        v.rows == cell_rows(leaf.children@),
                        fits_page(v),
                        page.wf(),
                        page@ == with_cells(v, base, i as nat),
                    decreases leaf.children.len() - i,
                {
                    assert(v.keys[i as int] <= u32::MAX);
                    page.set_cell(i, leaf.children[i].key, &leaf.children[i].value);
                    i += 1;
                }
            },
            NodeType::Internal(inner) => {
                page.set_kind(false);
                page.set_root_node(node.is_root);
                page.set_parent_offset(node.parent_offset);
                page.set_num_cells(inner.separators.len());
                page.set_rightmost_child(inner.separators.len());
                let ghost base = page@;
                let mut i: usize = 0;
                while i < inner.separators.len()
                    invariant
                        i <= inner.separators.len(),
                        inner.separators.len() <= MAX_INTERNAL_NODES,
                        inner.separators.len() > 0 ==> inner.children.len()
                            == inner.separators.len() + 1,
                        v == node@,
                        v.keys == inner.separators@,
                        v.children == inner.children@,
                        fits_page(v),
                        page.wf(),
                        page@ == with_triples(v, base, i as nat),
                    decreases inner.separators.len() - i,
                {
                    assert(v.keys[i as int] <= u32::MAX);
                    assert(v.children[i as int].0 <= u32::MAX);
                    assert(v.children[i + 1].0 <= u32::MAX);
                    page.set_internal_child(
                        i,
                        inner.separators[i],
                        inner.children[i],
                        inner.children[i + 1],
                    );
                    i += 1;
                }
            },
        }
        page
    }
}

impl Node<usize, Row> {
    /// The node that `page` stores, taken to live at `offset`; `CorruptFile`
    /// where the page stores none.
    pub fn from_page(page: &Page, offset: Offset) -> (r: Result<Self, DbError>)
        requires
            page.wf(),
        ensures
            r is Ok <==> decodes(page@),
            r matches Ok(n) ==> n@ == node_of_page(page@, offset) && n.wf() && fits_page(n@),
            r matches Err(e) ==> e == DbError::CorruptFile,
    {
        let data = page.as_bytes();
        let kind = data[NODE_TYPE_OFFSET];
        let is_root = page.is_root_node();
        let parent_offset = if is_root {
            None
        } else {
            page.parent_offset()
        };
        if kind == 0 {
            let n = page.num_cells();
            if n > MAX_LEAF_NODES {
                return Err(DbError::CorruptFile);
            }
            let mut cells: Vec<KeyValuePair<usize, Row>> = Vec::new();
            let mut i: usize = 0;
            while i < n
                invariant
                    i <= n <= MAX_LEAF_NODES,
                    page.wf(),
                    data@ == page@,
                    n == le_value(page@, NUM_CELLS_OFFSET as int),
                    page@[NODE_TYPE_OFFSET as int] == 0,
                    cells.len() == i,
                    cell_keys(cells@) == leaf_keys_of(page@, i as nat),
                    cell_rows(cells@) == leaf_rows_of(page@, i as nat),
                    forall|j: int| 0 <= j < i ==> is_row(#[trigger] cell_row_bytes(page@, j)),
                    strictly_ascending(leaf_keys_of(page@, i as nat)),
                decreases n - i,
            {
                let at = CELL_OFFSET + i * CELL_SIZE;
                let key = read_u32(data, at) as usize;
                let ghost all = leaf_keys_of(page@, n as nat);
                assert(all[i as int] == key);
                if i > 0 {
                    let before = cells[i - 1].key;
                    assert(before == cell_keys(cells@)[i - 1]);
                    assert(all[i - 1] == before);
                    if key <= before {
                        return Err(DbError::CorruptFile);
                    }
                }
                let row = match Row::read(data, at + CELL_KEY_SIZE) {
                    Some(row) => row,
                    None => {
                        assert(!is_row(cell_row_bytes(page@, i as int)));
                        return Err(DbError::CorruptFile);
                    },
                };
                let ghost rows_before = cell_rows(cells@);
                let ghost keys_before = cell_keys(cells@);
                cells.push(KeyValuePair { key, value: row });
                proof {
                    let keys_after = leaf_keys_of(page@, (i + 1) as nat);
                    assert(cell_keys(cells@) =~= keys_after) by {
                        assert forall|j: int| 0 <= j < i + 1 implies cell_keys(cells@)[j]
                            == keys_after[j] by {
                            if j < i {
                                assert(cell_keys(cells@)[j] == keys_before[j]);
                            }
                        }
                    }
                    assert(cell_rows(cells@) =~= leaf_rows_of(page@, (i + 1) as nat)) by {
                        assert forall|j: int| 0 <= j < i + 1 implies cell_rows(cells@)[j]
                            == leaf_rows_of(page@, (i + 1) as nat)[j] by {
                            if j < i {
                                assert(cell_rows(cells@)[j] == rows_before[j]);
                            }
                        }
                    }
                    assert forall|a: int, b: int| 0 <= a < b < keys_after.len() implies keys_after[a]
                        < keys_after[b] by {
                        let keys_i = leaf_keys_of(page@, i as nat);
                        if b < i {
                            assert(keys_i[a] < keys_i[b]);
                        } else if a < i - 1 {
                            assert(keys_i[a] < keys_i[i - 1]);
                        }
                    }
                }
                i += 1;
            }
            let last_leaf = page.prev_leaf();
            let next_leaf = page.next_leaf();
            let node = Node {
                is_root,
                node_type: NodeType::Leaf(
                    crate::node_type::LeafNode { children: cells, last_leaf, next_leaf },
                ),
                parent_offset,
                num_cells: n,
                offset,
            };
            assert(node@ == node_of_page(page@, offset));
            Ok(node)
        } else if kind == 1 {
            let n = page.rightmost_child();
            if n > MAX_INTERNAL_NODES {
                return Err(DbError::CorruptFile);
            }
            let mut separators: Vec<usize> = Vec::new();
            let mut children: Vec<Offset> = Vec::new();
            if n > 0 {
                children.push(Offset(read_u32(data, INTERNAL_CHILDREN_OFFSET) as usize));
            }
            let mut i: usize = 0;
            while i < n
                invariant
                    i <= n <= MAX_INTERNAL_NODES,
                    page.wf(),
                    data@ == page@,
                    n == le_value(page@, RIGHTMOST_CHILD_OFFSET as int),
                    page@[NODE_TYPE_OFFSET as int] == 1,
                    separators@ == separators_of(page@, i as nat),
                    n > 0 ==> children.len() == i + 1,
                    n > 0 ==> forall|j: int|
                        0 <= j <= i ==> children[j] == children_of(page@, n as nat)[j],
                    n == 0 ==> children.len() == 0,
                    strictly_ascending(separators_of(page@, i as nat)),
                decreases n - i,
            {
                let at = INTERNAL_CHILDREN_OFFSET + i * INTERNAL_CHILD_SIZE;
                let key = read_u32(data, at + 4) as usize;
                let ghost all = separators_of(page@, n as nat);
                assert(all[i as int] == key);
                if i > 0 {
                    let before = separators[i - 1];
                    assert(all[i - 1] == before);
                    if key <= before {
                        return Err(DbError::CorruptFile);
                    }
                }
                let right = Offset(read_u32(data, at + 8) as usize);
                let ghost seps_before = separators@;
                separators.push(key);
                children.push(right);
                proof {
                    let seps_after = separators_of(page@, (i + 1) as nat);
                    assert(separators@ =~= seps_after);
                    assert(children[i + 1] == children_of(page@, n as nat)[i + 1]);
                    assert forall|a: int, b: int| 0 <= a < b < seps_after.len() implies seps_after[a]
                        < seps_after[b] by {
                        if b < i {
                            assert(seps_before[a] < seps_before[b]);
                        } else if a < i - 1 {
                            assert(seps_before[a] < seps_before[i - 1]);
                        }
                    }
                }
                i += 1;
            }
            assert(children@ =~= children_of(page@, n as nat));
            let node = Node {
                is_root,
                node_type: NodeType::Internal(
                    crate::node_type::InternalNode { separators, children },
                ),
                parent_offset,
                num_cells: n,
                offset,
            };
            assert(node@ == node_of_page(page@, offset));
            Ok(node)
        } else {
            Err(DbError::CorruptFile)
        }
    }
}

/// An offset that fits its four bytes is read back from the number stored
/// for it.
pub proof fn lemma_offset_round_trip(offset: Option<Offset>)
    requires
        offset matches Some(o) ==> o.0 < NO_OFFSET,
    ensures
        offset_of_raw(raw_offset(offset)) == offset,
{
}

/// What the header written for a node reads as.
pub proof fn lemma_header_bytes(v: NodeView)
    requires
        v.keys.len() <= u32::MAX,
    ensures
        header_bytes(v).len() == PAGE_SIZE,
        header_bytes(v)[NODE_TYPE_OFFSET as int] == if v.is_leaf { 0u8 } else { 1u8 },
        header_bytes(v)[IS_ROOT_OFFSET as int] == if v.is_root { 1u8 } else { 0u8 },
        le_value(header_bytes(v), PARENT_OFFSET as int) == raw_offset(v.parent_offset),
        le_value(header_bytes(v), NUM_CELLS_OFFSET as int) == v.keys.len(),
        forall|i: int| NUM_CELLS_OFFSET + 4 <= i < PAGE_SIZE ==> header_bytes(v)[i] == 0,
{
    let kind = if v.is_leaf { 0u8 } else { 1u8 };
    let root = if v.is_root { 1u8 } else { 0u8 };
    let b0 = blank_page().update(NODE_TYPE_OFFSET as int, kind).update(IS_ROOT_OFFSET as int, root);
    let b1 = splice(b0, PARENT_OFFSET as int, le_bytes(raw_offset(v.parent_offset)));
    let b2 = splice(b1, NUM_CELLS_OFFSET as int, le_bytes(v.keys.len() as u32));
    lemma_le_value_of_splice(b0, PARENT_OFFSET as int, raw_offset(v.parent_offset));
    lemma_le_value_frame(b1, b2, PARENT_OFFSET as int);
    lemma_le_value_of_splice(b1, NUM_CELLS_OFFSET as int, v.keys.len() as u32);
}

/// What a page reads as after the first `n` cells of a leaf were written
/// into it: those cells, and outside them what it held before.
pub proof fn lemma_with_cells(v: NodeView, base: Seq<u8>, n: nat)
    requires
        n <= v.keys.len() <= MAX_LEAF_NODES,
        v.rows.len() == v.keys.len(),
        base.len() == PAGE_SIZE,
    ensures
        with_cells(v, base, n).len() == PAGE_SIZE,
        forall|i: int|
            0 <= i < PAGE_SIZE && (i < CELL_OFFSET || i >= cell_at(n as int)) ==> with_cells(
                v,
                base,
                n,
            )[i] == base[i],
        forall|j: int|
            0 <= j < n ==> le_value(with_cells(v, base, n), #[trigger] cell_at(j))
                == v.keys[j] as u32,
        forall|j: int|
            0 <= j < n ==> #[trigger] cell_row_bytes(with_cells(v, base, n), j) == row_bytes(
                v.rows[j],
            ),
    decreases n,
{
    if n > 0 {
        let i = (n - 1) as int;
        let p = with_cells(v, base, (n - 1) as nat);
        lemma_with_cells(v, base, (n - 1) as nat);
        let q = splice(p, cell_at(i), le_bytes(v.keys[i] as u32));
        let w = splice(q, cell_at(i) + CELL_KEY_SIZE, row_bytes(v.rows[i]));
        assert(w == with_cells(v, base, n));
        assert(row_bytes(v.rows[i]).len() == ROW_SIZE);
        assert forall|j: int| 0 <= j < n implies le_value(w, #[trigger] cell_at(j))
            == v.keys[j] as u32 by {
            if j < i {
                lemma_le_value_frame(p, w, cell_at(j));
            } else {
                lemma_le_value_of_splice(p, cell_at(i), v.keys[i] as u32);
                lemma_le_value_frame(q, w, cell_at(i));
            }
        }
        assert forall|j: int| 0 <= j < n implies #[trigger] cell_row_bytes(w, j) == row_bytes(
            v.rows[j],
        ) by {
            if j < i {
                assert(cell_row_bytes(w, j) =~= cell_row_bytes(p, j));
            } else {
                assert(cell_row_bytes(w, i) =~= row_bytes(v.rows[i]));
            }
        }
    }
}

/// What a page reads as after the first `n` cells of an internal node were
/// written into it: those cells, and outside them what it held before.
pub proof fn lemma_with_triples(v: NodeView, base: Seq<u8>, n: nat)
    requires
        n <= v.keys.len() <= MAX_INTERNAL_NODES,
        v.children.len() == v.keys.len() + 1,
        base.len() == PAGE_SIZE,
    ensures
        with_triples(v, base, n).len() == PAGE_SIZE,
        forall|i: int|
            0 <= i < PAGE_SIZE && (i < INTERNAL_CHILDREN_OFFSET || i >= triple_at(n as int))
                ==> with_triples(v, base, n)[i] == base[i],
        forall|j: int|
            0 <= j < n ==> {
                &&& le_value(with_triples(v, base, n), #[trigger] triple_at(j))
                    == v.children[j].0 as u32
                &&& le_value(with_triples(v, base, n), triple_at(j) + 4) == v.keys[j] as u32
                &&& le_value(with_triples(v, base, n), triple_at(j) + 8) == v.children[j + 1].0 as u32
            },
    decreases n,
{
    if n > 0 {
        let i = (n - 1) as int;
        let p = with_triples(v, base, (n - 1) as nat);
        lemma_with_triples(v, base, (n - 1) as nat);
        let q = splice(p, triple_at(i), le_bytes(v.children[i].0 as u32));
        let r = splice(q, triple_at(i) + 4, le_bytes(v.keys[i] as u32));
        let w = splice(r, triple_at(i) + 8, le_bytes(v.children[i + 1].0 as u32));
        assert(w == with_triples(v, base, n));
        assert forall|j: int| 0 <= j < n implies {
            &&& le_value(w, #[trigger] triple_at(j)) == v.children[j].0 as u32
            &&& le_value(w, triple_at(j) + 4) == v.keys[j] as u32
            &&& le_value(w, triple_at(j) + 8) == v.children[j + 1].0 as u32
        } by {
            if j < i {
                lemma_le_value_frame(p, w, triple_at(j));
                lemma_le_value_frame(p, w, triple_at(j) + 4);
                lemma_le_value_frame(p, w, triple_at(j) + 8);
            } else {
                lemma_le_value_of_splice(p, triple_at(i), v.children[i].0 as u32);
                lemma_le_value_frame(q, w, triple_at(i));
                lemma_le_value_of_splice(q, triple_at(i) + 4, v.keys[i] as u32);
                lemma_le_value_frame(r, w, triple_at(i) + 4);
                lemma_le_value_of_splice(r, triple_at(i) + 8, v.children[i + 1].0 as u32);
            }
        }
    }
}

/// What the page written for a leaf reads as, field by field.
pub proof fn lemma_leaf_page_reads(v: NodeView)
    requires
        v.is_leaf,
        v.keys.len() <= MAX_LEAF_NODES,
        v.rows.len() == v.keys.len(),
    ensures
        page_bytes(v).len() == PAGE_SIZE,
        page_bytes(v)[NODE_TYPE_OFFSET as int] == 0,
        page_bytes(v)[IS_ROOT_OFFSET as int] == if v.is_root { 1u8 } else { 0u8 },
        le_value(page_bytes(v), PARENT_OFFSET as int) == raw_offset(v.parent_offset),
        le_value(page_bytes(v), NUM_CELLS_OFFSET as int) == v.keys.len(),
        le_value(page_bytes(v), PREV_LEAF_OFFSET as int) == raw_offset(v.prev_leaf),
        le_value(page_bytes(v), NEXT_LEAF_OFFSET as int) == raw_offset(v.next_leaf),
        forall|j: int|
            0 <= j < v.keys.len() ==> le_value(page_bytes(v), #[trigger] cell_at(j))
                == v.keys[j] as u32,
        forall|j: int|
            0 <= j < v.keys.len() ==> #[trigger] cell_row_bytes(page_bytes(v), j) == row_bytes(
                v.rows[j],
            ),
{
    let n = v.keys.len();
    let h = header_bytes(v);
    lemma_header_bytes(v);
    let b1 = splice(h, PREV_LEAF_OFFSET as int, le_bytes(raw_offset(v.prev_leaf)));
    let b2 = splice(b1, NEXT_LEAF_OFFSET as int, le_bytes(raw_offset(v.next_leaf)));
    let w = with_cells(v, b2, n);
    assert(w == page_bytes(v));
    lemma_with_cells(v, b2, n);
    assert(b2[NODE_TYPE_OFFSET as int] == h[NODE_TYPE_OFFSET as int]);
    assert(b2[IS_ROOT_OFFSET as int] == h[IS_ROOT_OFFSET as int]);
    assert(le_value(b2, PREV_LEAF_OFFSET as int) == raw_offset(v.prev_leaf)) by {
        lemma_le_value_of_splice(h, PREV_LEAF_OFFSET as int, raw_offset(v.prev_leaf));
        lemma_le_value_frame(b1, b2, PREV_LEAF_OFFSET as int);
    }
    assert(le_value(b2, NEXT_LEAF_OFFSET as int) == raw_offset(v.next_leaf)) by {
        lemma_le_value_of_splice(b1, NEXT_LEAF_OFFSET as int, raw_offset(v.next_leaf));
    }
    assert(le_value(b2, PARENT_OFFSET as int) == le_value(h, PARENT_OFFSET as int)) by {
        lemma_le_value_frame(h, b2, PARENT_OFFSET as int);
    }
    assert(le_value(b2, NUM_CELLS_OFFSET as int) == le_value(h, NUM_CELLS_OFFSET as int)) by {
        lemma_le_value_frame(h, b2, NUM_CELLS_OFFSET as int);
    }
    lemma_le_value_frame(b2, w, PARENT_OFFSET as int);
    lemma_le_value_frame(b2, w, NUM_CELLS_OFFSET as int);
    lemma_le_value_frame(b2, w, PREV_LEAF_OFFSET as int);
    lemma_le_value_frame(b2, w, NEXT_LEAF_OFFSET as int);
}

/// What the page written for an internal node reads as, field by field.
pub proof fn lemma_internal_page_reads(v: NodeView)
    requires
        !v.is_leaf,
        v.keys.len() <= MAX_INTERNAL_NODES,
        v.keys.len() > 0 ==> v.children.len() == v.keys.len() + 1,
    ensures
        page_bytes(v).len() == PAGE_SIZE,
        page_bytes(v)[NODE_TYPE_OFFSET as int] == 1,
        page_bytes(v)[IS_ROOT_OFFSET as int] == if v.is_root { 1u8 } else { 0u8 },
        le_value(page_bytes(v), PARENT_OFFSET as int) == raw_offset(v.parent_offset),
        le_value(page_bytes(v), RIGHTMOST_CHILD_OFFSET as int) == v.keys.len(),
        forall|j: int|
            0 <= j < v.keys.len() ==> {
                &&& le_value(page_bytes(v), #[trigger] triple_at(j)) == v.children[j].0 as u32
                &&& le_value(page_bytes(v), triple_at(j) + 4) == v.keys[j] as u32
                &&& le_value(page_bytes(v), triple_at(j) + 8) == v.children[j + 1].0 as u32
            },
{
    let n = v.keys.len();
    let h = header_bytes(v);
    lemma_header_bytes(v);
    let b1 = splice(h, RIGHTMOST_CHILD_OFFSET as int, le_bytes(n as u32));
    let w = with_triples(v, b1, n);
    assert(w == page_bytes(v));
    assert(b1[NODE_TYPE_OFFSET as int] == h[NODE_TYPE_OFFSET as int]);
    assert(b1[IS_ROOT_OFFSET as int] == h[IS_ROOT_OFFSET as int]);
    assert(le_value(b1, RIGHTMOST_CHILD_OFFSET as int) == n) by {
        lemma_le_value_of_splice(h, RIGHTMOST_CHILD_OFFSET as int, n as u32);
    }
    assert(le_value(b1, PARENT_OFFSET as int) == le_value(h, PARENT_OFFSET as int)) by {
        lemma_le_value_frame(h, b1, PARENT_OFFSET as int);
    }
    if n > 0 {
        lemma_with_triples(v, b1, n);
        lemma_le_value_frame(b1, w, PARENT_OFFSET as int);
        lemma_le_value_frame(b1, w, RIGHTMOST_CHILD_OFFSET as int);
    }
}

/// Whether a node is read back from its page as it was written: it fits a
/// page, its keys ascend strictly, and its rows are stored in full.
pub open spec fn page_exact(v: NodeView) -> bool {
    &&& fits_page(v)
    &&& strictly_ascending(v.keys)
    &&& forall|i: int| 0 <= i < v.rows.len() ==> storable(#[trigger] v.rows[i])
}

proof fn lemma_leaf_round_trip(v: NodeView)
    requires
        page_exact(v),
        v.is_leaf,
    ensures
        decodes(page_bytes(v)),
        node_of_page(page_bytes(v), v.offset) == v,
{
    let n = v.keys.len();
    let w = page_bytes(v);
    lemma_leaf_page_reads(v);
    lemma_offset_round_trip(v.parent_offset);
    lemma_offset_round_trip(v.prev_leaf);
    lemma_offset_round_trip(v.next_leaf);
    assert(leaf_keys_of(w, n) =~= v.keys) by {
        assert forall|j: int| 0 <= j < n implies leaf_keys_of(w, n)[j] == v.keys[j] by {
            assert(le_value(w, cell_at(j)) == v.keys[j] as u32);
            assert(v.keys[j] <= u32::MAX);
        }
    }
    assert forall|j: int| 0 <= j < n implies is_row(#[trigger] cell_row_bytes(w, j))
        && row_of_bytes(cell_row_bytes(w, j)) == v.rows[j] by {
        assert(storable(v.rows[j]));
        lemma_row_round_trip(v.rows[j]);
    }
    assert(leaf_rows_of(w, n) =~= v.rows);
    let back = node_of_page(w, v.offset);
    assert(back.children =~= v.children);
    assert(back.keys == v.keys);
    assert(back.rows == v.rows);
}

proof fn lemma_internal_round_trip(v: NodeView)
    requires
        page_exact(v),
        !v.is_leaf,
    ensures
        decodes(page_bytes(v)),
        node_of_page(page_bytes(v), v.offset) == v,
{
    let n = v.keys.len();
    let w = page_bytes(v);
    lemma_internal_page_reads(v);
    lemma_offset_round_trip(v.parent_offset);
    assert(separators_of(w, n) =~= v.keys) by {
        assert forall|j: int| 0 <= j < n implies separators_of(w, n)[j] == v.keys[j] by {
            assert(le_value(w, triple_at(j) + 4) == v.keys[j] as u32);
            assert(v.keys[j] <= u32::MAX);
        }
    }
    assert(children_of(w, n) =~= v.children) by {
        if n > 0 {
            assert forall|j: int| 0 <= j < n + 1 implies children_of(w, n)[j] == v.children[j] by {
                assert(v.children[j].0 <= u32::MAX);
                if j == 0 {
                    assert(le_value(w, triple_at(0)) == v.children[0].0 as u32);
                } else {
                    assert(le_value(w, triple_at(j - 1) + 8) == v.children[j].0 as u32);
                }
            }
        }
    }
    let back = node_of_page(w, v.offset);
    assert(back.rows =~= v.rows);
    assert(back.keys == v.keys);
    assert(back.children == v.children);
}

/// The page written for a node stores that node.
pub proof fn lemma_page_round_trip(v: NodeView)
    requires
        page_exact(v),
    ensures
        page_bytes(v).len() == PAGE_SIZE,
        decodes(page_bytes(v)),
        node_of_page(page_bytes(v), v.offset) == v,
{
    if v.is_leaf {
        lemma_leaf_page_reads(v);
        lemma_leaf_round_trip(v);
    } else {
        lemma_internal_page_reads(v);
        lemma_internal_round_trip(v);
    }
}

/// Whether the keys ascend strictly and each fits four bytes.
fn keys_in_order(keys: &Vec<usize>) -> (r: bool)
    ensures
        r == (strictly_ascending(keys@) && forall|j: int|
            0 <= j < keys.len() ==> #[trigger] keys[j] <= u32::MAX),
{
    let n = keys.len();
    let mut i: usize = 0;
    while i < n
        invariant
            i <= n,
            n == keys.len(),
            forall|j: int| 0 <= j < i ==> #[trigger] keys[j] <= u32::MAX,
            forall|a: int, b: int| 0 <= a < b < i ==> keys[a] < keys[b],
        decreases n - i,
    {
        let key = keys[i];
        if key > 0xFFFF_FFFF {
            return false;
        }
        if i > 0 {
            let before = keys[i - 1];
            if key <= before {
                return false;
            }
            assert forall|a: int, b: int| 0 <= a < b < i + 1 implies keys[a] < keys[b] by {
                if b == i && a < i - 1 {
                    assert(keys[a] < keys[i - 1]);
                }
            }
        }
        i += 1;
    }
    true
}

/// Whether the keys of the cells ascend strictly and each fits four bytes.
fn cells_in_order(cells: &Vec<KeyValuePair<usize, Row>>) -> (r: bool)
    ensures
        r == (strictly_ascending(cell_keys(cells@)) && forall|j: int|
            0 <= j < cells.len() ==> #[trigger] cell_keys(cells@)[j] <= u32::MAX),
{
    let ghost keys = cell_keys(cells@);
    let n = cells.len();
    let mut i: usize = 0;
    while i < n
        invariant
            i <= n,
            n == cells.len(),
            keys == cell_keys(cells@),
            forall|j: int| 0 <= j < i ==> #[trigger] keys[j] <= u32::MAX,
            forall|a: int, b: int| 0 <= a < b < i ==> keys[a] < keys[b],
        decreases n - i,
    {
        let key = cells[i].key;
        assert(key == keys[i as int]);
        if key > 0xFFFF_FFFF {
            return false;
        }
        if i > 0 {
            let before = cells[i - 1].key;
            assert(before == keys[i - 1]);
            if key <= before {
                return false;
            }
            assert forall|a: int, b: int| 0 <= a < b < i + 1 implies keys[a] < keys[b] by {
                if b == i && a < i - 1 {
                    assert(keys[a] < keys[i - 1]);
                }
            }
        }
        i += 1;
    }
    true
}

/// Whether each offset fits four bytes.
fn offsets_fit(offsets: &Vec<Offset>) -> (r: bool)
    ensures
        r == (forall|j: int| 0 <= j < offsets.len() ==> (#[trigger] offsets[j]).0 <= u32::MAX),
{
    let mut c: usize = 0;
    while c < offsets.len()
        invariant
            c <= offsets.len(),
            forall|j: int| 0 <= j < c ==> (#[trigger] offsets[j]).0 <= u32::MAX,
        decreases offsets.len() - c,
    {
        if offsets[c].0 > 0xFFFF_FFFF {
            return false;
        }
        c += 1;
    }
    true
}

/// Whether an optional offset can be written: `None`, or below the number
/// that stands for it.
fn link_fits(link: &Option<Offset>) -> (r: bool)
    ensures
        r == (*link matches Some(p) ==> p.0 < NO_OFFSET),
{
    match link {
        Some(p) => p.0 < 0xFFFF_FFFF,
        None => true,
    }
}

impl Node<usize, Row> {
    /// Whether the node is consistent in itself and can be written to a
    /// page.
    pub fn is_storable(&self) -> (r: bool)
        ensures
            r == (self.wf() && fits_page(self@)),
    {
        if self.is_root && self.parent_offset.is_some() {
            return false;
        }
        if !link_fits(&self.parent_offset) {
            return false;
        }
        match &self.node_type {
            NodeType::Leaf(leaf) => {
                let n = leaf.children.len();
                assert(self@.rows.len() == self@.keys.len());
                n <= MAX_LEAF_NODES && self.num_cells == n && link_fits(&leaf.last_leaf)
                    && link_fits(&leaf.next_leaf) && cells_in_order(&leaf.children)
            },
            NodeType::Internal(inner) => {
                let n = inner.separators.len();
                if n > MAX_INTERNAL_NODES || self.num_cells != n {
                    return false;
                }
                if n == 0 {
                    return inner.children.len() == 0;
                }
                inner.children.len() == n + 1 && keys_in_order(&inner.separators) && offsets_fit(
                    &inner.children,
                )
            },
        }
    }
}

} // verus!
