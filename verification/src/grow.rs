//! How a tree changes on an insert: the states between a split and its
//! parent taking up the new page, and the proofs that each step keeps the
//! tree a tree and adds the one entry to its table.

use vstd::prelude::*;
use crate::datastore::RowView;
use crate::node::{
    MAX_INTERNAL_NODES,
    MAX_LEAF_NODES,
    NodeView,
    internal_split_point,
    lemma_insert_key_keeps_order,
    lemma_key_subrange_keeps_order,
    split_point,
};
use crate::pager::Offset;
use crate::search::{has_key, lemma_rank_splits, lemma_rank_unique, rank, strictly_ascending};
use crate::shape::{
    Shape,
    Store,
    chain_ok,
    child_ok,
    entries_from,
    entries_upto,
    entry_keys,
    inner_ok,
    inv,
    key_ceiling,
    leaf_entries,
    leaf_ok,
    leftmost,
    lemma_entries_from_same,
    lemma_entries_len,
    lemma_entries_split,
    lemma_entries_upto_same,
    lemma_leaf_ranges,
    lemma_leaf_rank,
    lemma_leftmost,
    lemma_ranges_ascend,
    link_ok,
    node_ok,
    node_ok_wide,
    page_ok,
    prefix_len,
    tree_entries,
};

verus! {

/// Every separator of a tree is a key of the table.
pub proof fn lemma_separator_present(store: Store, free: Seq<usize>, g: Shape, p: int, i: int)
    requires
        inv(store, free, g),
        g.pages.contains(p),
        (g.level)(p) > 0,
        0 <= i < store[p]->0.keys.len(),
    ensures
        has_key(entry_keys(tree_entries(store, g)), store[p]->0.keys[i]),
{
    assert(page_ok(store, free, g, p));
    let v = store[p]->0;
    let key = v.keys[i];
    assert(child_ok(g, p, v, i + 1));
    let c = v.children[i + 1].0 as int;
    let fuel = (g.level)(c);
    lemma_leftmost(store, free, g, c, fuel);
    let l = leftmost(store, c, fuel);
    assert(page_ok(store, free, g, l));
    let w = store[l]->0;
    assert((g.lo)(l) == key);
    assert((g.lo)(p) < v.keys[i]);
    lemma_leaf_ranges(store, free, g);
    assert((g.lo)(g.leaves[0]) == 0);
    assert((g.pos)(l) > 0);
    assert(w.keys[0] == key);
    lemma_leaf_rank(store, free, g, l, key);
}

/// A key that the table lacks, and that an internal page of the tree
/// covers, is covered by the child to which an insert is routed.
pub proof fn lemma_route(store: Store, free: Seq<usize>, g: Shape, p: int, key: usize)
    requires
        inv(store, free, g),
        g.pages.contains(p),
        (g.level)(p) > 0,
        (g.lo)(p) <= key < (g.hi)(p),
        !has_key(entry_keys(tree_entries(store, g)), key),
    ensures
        ({
            let v = store[p]->0;
            let i = rank(v.keys, key) as int;
            let c = v.children[i].0 as int;
            &&& !has_key(v.keys, key)
            &&& 0 <= i < v.children.len()
            &&& child_ok(g, p, v, i)
            &&& (g.lo)(c) <= key < (g.hi)(c)
        }),
{
    assert(page_ok(store, free, g, p));
    let v = store[p]->0;
    let i = rank(v.keys, key) as int;
    lemma_rank_splits(v.keys, key);
    assert(child_ok(g, p, v, i));
    if has_key(v.keys, key) {
        let t = choose|t: int| 0 <= t < v.keys.len() && v.keys[t] == key;
        lemma_separator_present(store, free, g, p, t);
    }
    if i < v.keys.len() {
        assert(v.keys[i] >= key);
        assert(v.keys[i] != key);
    }
}

/// Inserting into the middle one of three runs inserts into their
/// concatenation.
pub proof fn lemma_concat_insert<T>(a: Seq<T>, b: Seq<T>, c: Seq<T>, r: int, x: T)
    requires
        0 <= r <= b.len(),
    ensures
        a + b.insert(r, x) + c == (a + b + c).insert(a.len() + r, x),
{
    assert(a + b.insert(r, x) + c =~= (a + b + c).insert(a.len() + r, x));
}

/// The table in terms of one leaf: the cells of the leaves before it, its
/// own, and those of the leaves behind it.
pub proof fn lemma_entries_around(store: Store, leaves: Seq<int>, k: int)
    requires
        0 <= k < leaves.len(),
    ensures
        entries_upto(store, leaves, leaves.len()) == entries_upto(store, leaves, k as nat)
            + leaf_entries(store[leaves[k]]->0) + entries_from(
            store,
            leaves,
            (k + 1) as nat,
            leaves.len(),
        ),
        entries_upto(store, leaves, k as nat).len() == prefix_len(store, leaves, k as nat),
{
    lemma_entries_split(store, leaves, (k + 1) as nat, leaves.len());
    lemma_entries_len(store, leaves, k as nat);
}

/// Where one leaf of a tree changes its cells, the table changes by the
/// cells of that leaf alone.
pub proof fn lemma_entries_replace(store: Store, free: Seq<usize>, g: Shape, p: int, w: NodeView)
    requires
        inv(store, free, g),
        g.pages.contains(p),
        (g.level)(p) == 0,
    ensures
        tree_entries(store.update(p, Some(w)), g) == entries_upto(
            store,
            g.leaves,
            (g.pos)(p) as nat,
        ) + leaf_entries(w) + entries_from(store, g.leaves, ((g.pos)(p) + 1) as nat, g.leaves.len()),
        tree_entries(store, g) == entries_upto(store, g.leaves, (g.pos)(p) as nat) + leaf_entries(
            store[p]->0,
        ) + entries_from(store, g.leaves, ((g.pos)(p) + 1) as nat, g.leaves.len()),
        entries_upto(store, g.leaves, (g.pos)(p) as nat).len() == prefix_len(
            store,
            g.leaves,
            (g.pos)(p) as nat,
        ),
{
    let store2 = store.update(p, Some(w));
    let n = g.leaves.len();
    assert(page_ok(store, free, g, p));
    lemma_leaf_ranges(store, free, g);
    let k = (g.pos)(p);
    lemma_entries_around(store, g.leaves, k);
    lemma_entries_around(store2, g.leaves, k);
    assert forall|j: int| 0 <= j < k implies leaf_entries(store[#[trigger] g.leaves[j]]->0)
        == leaf_entries(store2[g.leaves[j]]->0) by {
        assert(link_ok(store, g, j));
    }
    lemma_entries_upto_same(store, g.leaves, store2, g.leaves, k as nat);
    assert forall|j: int| k + 1 <= j < n implies leaf_entries(store[#[trigger] g.leaves[j]]->0)
        == leaf_entries(store2[g.leaves[j + 0]]->0) by {
        assert(link_ok(store, g, j));
    }
    lemma_entries_from_same(store, g.leaves, (k + 1) as nat, n, store2, g.leaves, 0);
}

/// The node of a leaf that took up one cell at its place.
pub open spec fn with_cell(v: NodeView, key: usize, row: RowView) -> NodeView {
    NodeView {
        keys: v.keys.insert(rank(v.keys, key) as int, key),
        rows: v.rows.insert(rank(v.keys, key) as int, row),
        ..v
    }
}

/// A leaf that takes up a cell which it covers and lacks still agrees with
/// the layout, but for the number of its cells.
pub proof fn lemma_with_cell(g: Shape, p: int, v: NodeView, key: usize, row: RowView)
    requires
        node_ok(g, p, v),
        v.is_leaf,
        (g.lo)(p) <= key < (g.hi)(p),
        !has_key(v.keys, key),
    ensures
        ({
            let w = with_cell(v, key, row);
            &&& strictly_ascending(w.keys)
            &&& w.keys.len() == v.keys.len() + 1
            &&& w.rows.len() == w.keys.len()
            &&& 0 <= rank(v.keys, key) <= v.keys.len()
            &&& forall|i: int| 0 <= i < w.keys.len() ==> (g.lo)(p) <= #[trigger] w.keys[i] < (g.hi)(p)
            &&& (g.pos)(p) > 0 ==> w.keys[0] == (g.lo)(p)
            &&& leaf_entries(w) == leaf_entries(v).insert(rank(v.keys, key) as int, (key, row))
        }),
{
    let w = with_cell(v, key, row);
    let r = rank(v.keys, key) as int;
    lemma_rank_splits(v.keys, key);
    lemma_insert_key_keeps_order(v.keys, r, key);
    assert forall|i: int| 0 <= i < w.keys.len() implies (g.lo)(p) <= #[trigger] w.keys[i] < (g.hi)(
        p,
    ) by {
        if i < r {
            assert(w.keys[i] == v.keys[i]);
        } else if i > r {
            assert(w.keys[i] == v.keys[i - 1]);
        }
    }
    if (g.pos)(p) > 0 {
        assert(v.keys[0] != key);
        assert(r >= 1);
        assert(w.keys[0] == v.keys[0]);
    }
    assert(leaf_entries(w) =~= leaf_entries(v).insert(r, (key, row)));
}

/// A leaf of the tree takes up a cell without splitting: the tree stays a
/// tree of the same layout, and the table gains the cell at its place.
pub proof fn lemma_leaf_gains(
    store: Store,
    free: Seq<usize>,
    g: Shape,
    p: int,
    key: usize,
    row: RowView,
)
    requires
        inv(store, free, g),
        g.pages.contains(p),
        (g.level)(p) == 0,
        (g.lo)(p) <= key < (g.hi)(p),
        !has_key(store[p]->0.keys, key),
        store[p]->0.keys.len() < MAX_LEAF_NODES,
    ensures
        inv(store.update(p, Some(with_cell(store[p]->0, key, row))), free, g),
        tree_entries(store.update(p, Some(with_cell(store[p]->0, key, row))), g) == tree_entries(
            store,
            g,
        ).insert(
            (prefix_len(store, g.leaves, (g.pos)(p) as nat) + rank(store[p]->0.keys, key)) as int,
            (key, row),
        ),
{
    let v = store[p]->0;
    let w = with_cell(v, key, row);
    let store2 = store.update(p, Some(w));
    assert(page_ok(store, free, g, p));
    lemma_with_cell(g, p, v, key, row);
    lemma_leaf_ranges(store, free, g);
    assert forall|q: int| g.pages.contains(q) implies #[trigger] page_ok(store2, free, g, q) by {
        assert(page_ok(store, free, g, q));
        if q == p {
            assert(w.keys.len() == v.keys.len() + 1);
            assert(w.keys.len() <= MAX_LEAF_NODES);
            assert(w.rows.len() == w.keys.len());
            assert((g.pos)(p) > 0 ==> w.keys.len() >= 1 && w.keys[0] == (g.lo)(p));
            assert(leaf_ok(g, p, w));
        }
    }
    assert forall|j: int| 0 <= j < g.leaves.len() implies #[trigger] link_ok(store2, g, j) by {
        assert(link_ok(store, g, j));
    }
    lemma_entries_replace(store, free, g, p, w);
    lemma_rank_splits(v.keys, key);
    lemma_concat_insert(
        entries_upto(store, g.leaves, (g.pos)(p) as nat),
        leaf_entries(v),
        entries_from(store, g.leaves, ((g.pos)(p) + 1) as nat, g.leaves.len()),
        rank(v.keys, key) as int,
        (key, row),
    );
}

/// An internal node after it took up the separator `sep` at index `i` and
/// the page `n` as the child behind it.
pub open spec fn absorb(v: NodeView, i: int, sep: usize, n: int) -> NodeView {
    NodeView {
        keys: v.keys.insert(i, sep),
        children: v.children.insert(i + 1, Offset(n as usize)),
        ..v
    }
}

/// The internal page `par` lacks the separator `sep` and the child `n`
/// behind its child `i`, and agrees with the layout once it has them.
pub open spec fn gap_ok(
    store: Store,
    free: Seq<usize>,
    g: Shape,
    par: int,
    i: int,
    sep: usize,
    n: int,
) -> bool {
    &&& 0 <= par < store.len()
    &&& store[par] is Some
    &&& forall|j: int| 0 <= j < free.len() ==> #[trigger] free[j] != par
    &&& !store[par]->0.is_leaf
    &&& store[par]->0.keys.len() <= MAX_INTERNAL_NODES
    &&& store[par]->0.children.len() == store[par]->0.keys.len() + 1
    &&& 0 <= i < store[par]->0.children.len()
    &&& rank(store[par]->0.keys, sep) == i
    &&& !has_key(store[par]->0.keys, sep)
    &&& node_ok_wide(g, par, absorb(store[par]->0, i, sep, n))
}

/// The store holds a tree of the layout `g` in which the page `p` has just
/// split: the page `n` holds its upper half, which starts at the key `sep`,
/// and the parent of `p`, whose child `i` it is, has yet to take up `sep`
/// and `n`. Where `p` is the root, the root has yet to be replaced.
pub open spec fn pending(
    store: Store,
    free: Seq<usize>,
    g: Shape,
    p: int,
    i: int,
    sep: usize,
    n: int,
) -> bool {
    let par = (g.parent)(p);
    &&& g.pages.contains(0)
    &&& g.pages.contains(p)
    &&& g.pages.contains(n)
    &&& n != 0
    &&& n != p
    &&& store.len() <= u32::MAX
    &&& (g.lo)(0) == 0
    &&& (g.hi)(p) == sep
    &&& (g.lo)(n) == sep
    &&& (g.level)(n) == (g.level)(p)
    &&& store[p]->0.keys.len() >= 1
    &&& if p == 0 {
        &&& (g.hi)(n) == key_ceiling()
        &&& (g.parent)(n) == 0
    } else {
        &&& (g.hi)(0) == key_ceiling()
        &&& (g.parent)(n) == par
        &&& par != p
        &&& par != n
        &&& g.pages.contains(par)
        &&& gap_ok(store, free, g, par, i, sep, n)
    }
    &&& forall|q: int|
        g.pages.contains(q) && (p == 0 || q != par) ==> #[trigger] page_ok(store, free, g, q)
    &&& chain_ok(store, g)
    &&& (g.level)(0) + g.leaves.len() + free.len() <= store.len()
    &&& (g.parent)(0) == 0
    &&& forall|a: int, b: int| 0 <= a < b < free.len() ==> free[a] != free[b]
}

/// The lower half of a leaf that split on taking up a cell: the cells
/// before the split point, with the new leaf `n` behind it.
pub open spec fn lower_leaf(v: NodeView, key: usize, row: RowView, n: int) -> NodeView {
    let all = with_cell(v, key, row);
    let at = split_point(all.keys.len() as int);
    NodeView {
        keys: all.keys.subrange(0, at),
        rows: all.rows.subrange(0, at),
        next_leaf: Some(Offset(n as usize)),
        ..v
    }
}

/// Whether `right`, at page `n`, is the upper half of the leaf at page `p`
/// that split on taking up a cell: the cells from the split point on,
/// between `p` and the leaf that stood behind it.
pub open spec fn is_upper_leaf(
    v: NodeView,
    key: usize,
    row: RowView,
    p: int,
    n: int,
    right: NodeView,
) -> bool {
    let all = with_cell(v, key, row);
    let at = split_point(all.keys.len() as int);
    &&& right.is_leaf
    &&& !right.is_root
    &&& right.offset == Offset(n as usize)
    &&& right.keys == all.keys.subrange(at, all.keys.len() as int)
    &&& right.rows == all.rows.subrange(at, all.rows.len() as int)
    &&& right.children.len() == 0
    &&& right.prev_leaf == Some(Offset(p as usize))
    &&& right.next_leaf == v.next_leaf
}

/// The store with the leaf behind a leaf that split told of its new
/// neighbour `n`.
pub open spec fn relink(store: Store, next: Option<Offset>, n: int) -> Store {
    match next {
        Some(r) => store.update(
            r.0 as int,
            Some(NodeView { prev_leaf: Some(Offset(n as usize)), ..store[r.0 as int]->0 }),
        ),
        None => store,
    }
}

/// The store after the leaf at page `p` split into itself and `right` at
/// page `n`.
pub open spec fn split_leaf_store(
    store: Store,
    p: int,
    key: usize,
    row: RowView,
    n: int,
    right: NodeView,
) -> Store {
    relink(
        store.update(p, Some(lower_leaf(store[p]->0, key, row, n))),
        store[p]->0.next_leaf,
        n,
    ).update(n, Some(right))
}

/// The key at which a leaf splits on taking up a cell.
pub open spec fn leaf_separator(v: NodeView, key: usize, row: RowView) -> usize {
    let all = with_cell(v, key, row);
    all.keys[split_point(all.keys.len() as int)]
}

/// The layout after the leaf at page `p` gave the keys from `sep` on to
/// the new leaf `n` behind it.
pub open spec fn split_leaf_shape(g: Shape, p: int, n: int, sep: usize) -> Shape {
    let k = (g.pos)(p);
    Shape {
        pages: g.pages.insert(n),
        level: |q: int| if q == n { 0nat } else { (g.level)(q) },
        lo: |q: int| if q == n { sep as int } else { (g.lo)(q) },
        hi: |q: int|
            if q == p {
                sep as int
            } else if q == n {
                (g.hi)(p)
            } else {
                (g.hi)(q)
            },
        parent: |q: int| if q == n { (g.parent)(p) } else { (g.parent)(q) },
        pos: |q: int|
            if q == n {
                k + 1
            } else if (g.pos)(q) > k {
                (g.pos)(q) + 1
            } else {
                (g.pos)(q)
            },
        leaves: g.leaves.insert(k + 1, n),
    }
}

/// What holds where a full leaf of a tree is about to split on taking up a
/// cell, with the page `n` allotted for its upper half.
pub open spec fn leaf_split_ready(
    store: Store,
    free: Seq<usize>,
    g: Shape,
    p: int,
    i: int,
    key: usize,
    n: int,
) -> bool {
    &&& inv(store, free, g)
    &&& g.pages.contains(p)
    &&& (g.level)(p) == 0
    &&& (g.lo)(p) <= key < (g.hi)(p)
    &&& !has_key(store[p]->0.keys, key)
    &&& store[p]->0.keys.len() == MAX_LEAF_NODES
    &&& 0 <= n < store.len()
    &&& !g.pages.contains(n)
    &&& forall|j: int| 0 <= j < free.len() ==> #[trigger] free[j] != n
    &&& (g.level)(0) + g.leaves.len() + free.len() + 1 <= store.len()
    &&& p != 0 ==> {
        let par = (g.parent)(p);
        &&& g.pages.contains(par)
        &&& (g.level)(par) > 0
        &&& 0 <= i < store[par]->0.children.len()
        &&& store[par]->0.children[i].0 == p
    }
}

/// The two halves of a leaf that splits on taking up a cell agree with the
/// layout after the split.
pub proof fn lemma_leaf_halves(
    store: Store,
    free: Seq<usize>,
    g: Shape,
    p: int,
    i: int,
    key: usize,
    row: RowView,
    n: int,
    right: NodeView,
)
    requires
        leaf_split_ready(store, free, g, p, i, key, n),
        is_upper_leaf(store[p]->0, key, row, p, n, right),
    ensures
        ({
            let v = store[p]->0;
            let sep = leaf_separator(v, key, row);
            let g2 = split_leaf_shape(g, p, n, sep);
            &&& node_ok(g2, p, lower_leaf(v, key, row, n))
            &&& node_ok(g2, n, right)
            &&& (g.lo)(p) < sep < (g.hi)(p)
            &&& leaf_entries(lower_leaf(v, key, row, n)) + leaf_entries(right) == leaf_entries(
                v,
            ).insert(rank(v.keys, key) as int, (key, row))
            &&& 0 <= rank(v.keys, key) <= v.keys.len()
        }),
{
    let v = store[p]->0;
    let all = with_cell(v, key, row);
    let at = split_point(all.keys.len() as int);
    let sep = leaf_separator(v, key, row);
    let g2 = split_leaf_shape(g, p, n, sep);
    let left = lower_leaf(v, key, row, n);
    let k = (g.pos)(p);
    assert(page_ok(store, free, g, p));
    lemma_with_cell(g, p, v, key, row);
    lemma_key_subrange_keeps_order(all.keys, 0, at);
    lemma_key_subrange_keeps_order(all.keys, at, all.keys.len() as int);
    assert(all.keys[0] < all.keys[at]);
    assert forall|t: int| 0 <= t < left.keys.len() implies (g2.lo)(p) <= #[trigger] left.keys[t]
        < (g2.hi)(p) by {
        assert(left.keys[t] == all.keys[t]);
        assert(all.keys[t] < all.keys[at]);
    }
    assert forall|t: int| 0 <= t < right.keys.len() implies (g2.lo)(n) <= #[trigger] right.keys[t]
        < (g2.hi)(n) by {
        assert(right.keys[t] == all.keys[at + t]);
        if t > 0 {
            assert(all.keys[at] < all.keys[at + t]);
        }
    }
    assert(g2.leaves[k] == p);
    assert(g2.leaves[k + 1] == n);
    assert(left.keys[0] == all.keys[0]);
    assert(right.keys[0] == sep);
    assert(leaf_ok(g2, p, left));
    assert(leaf_ok(g2, n, right));
    assert(leaf_entries(left) + leaf_entries(right) =~= leaf_entries(all));
}

/// What the store holds after a leaf split, page by page.
pub proof fn lemma_split_leaf_store(
    store: Store,
    free: Seq<usize>,
    g: Shape,
    p: int,
    i: int,
    key: usize,
    row: RowView,
    n: int,
    right: NodeView,
)
    requires
        leaf_split_ready(store, free, g, p, i, key, n),
        is_upper_leaf(store[p]->0, key, row, p, n, right),
    ensures
        ({
            let v = store[p]->0;
            let store2 = split_leaf_store(store, p, key, row, n, right);
            let k = (g.pos)(p);
            &&& store2.len() == store.len()
            &&& store2[p] == Some(lower_leaf(v, key, row, n))
            &&& store2[n] == Some(right)
            &&& 0 <= k < g.leaves.len()
            &&& g.leaves[k] == p
            &&& v.next_leaf == (if k + 1 == g.leaves.len() {
                None
            } else {
                Some(Offset(g.leaves[k + 1] as usize))
            })
            &&& k + 1 < g.leaves.len() ==> {
                let r = g.leaves[k + 1];
                &&& r != p
                &&& r != n
                &&& store2[r] == Some(
                    NodeView { prev_leaf: Some(Offset(n as usize)), ..store[r]->0 },
                )
            }
            &&& forall|q: int|
                0 <= q < store.len() && q != p && q != n && !(k + 1 < g.leaves.len() && q
                    == g.leaves[k + 1]) ==> #[trigger] store2[q] == store[q]
        }),
{
    let v = store[p]->0;
    let k = (g.pos)(p);
    assert(page_ok(store, free, g, p));
    lemma_leaf_ranges(store, free, g);
    assert(link_ok(store, g, k));
    if k + 1 < g.leaves.len() {
        let r = g.leaves[k + 1];
        assert(link_ok(store, g, k + 1));
        assert(page_ok(store, free, g, r));
    }
}

/// After a leaf split, every page of the tree but the parent of the leaf
/// agrees with the layout.
pub proof fn lemma_leaf_split_pages(
    store: Store,
    free: Seq<usize>,
    g: Shape,
    p: int,
    i: int,
    key: usize,
    row: RowView,
    n: int,
    right: NodeView,
)
    requires
        leaf_split_ready(store, free, g, p, i, key, n),
        is_upper_leaf(store[p]->0, key, row, p, n, right),
    ensures
        ({
            let g2 = split_leaf_shape(g, p, n, leaf_separator(store[p]->0, key, row));
            let store2 = split_leaf_store(store, p, key, row, n, right);
            forall|q: int|
                g2.pages.contains(q) && (p == 0 || q != (g.parent)(p)) ==> #[trigger] page_ok(
                    store2,
                    free,
                    g2,
                    q,
                )
        }),
{
    let v = store[p]->0;
    let sep = leaf_separator(v, key, row);
    let g2 = split_leaf_shape(g, p, n, sep);
    let store2 = split_leaf_store(store, p, key, row, n, right);
    let k = (g.pos)(p);
    lemma_split_leaf_store(store, free, g, p, i, key, row, n, right);
    lemma_leaf_halves(store, free, g, p, i, key, row, n, right);
    lemma_leaf_ranges(store, free, g);
    assert forall|q: int|
        g2.pages.contains(q) && (p == 0 || q != (g.parent)(p)) implies #[trigger] page_ok(
        store2,
        free,
        g2,
        q,
    ) by {
        if q == p || q == n {
        } else {
            assert(page_ok(store, free, g, q));
            let w = store[q]->0;
            let w2 = store2[q]->0;
            assert(w2.keys == w.keys && w2.rows == w.rows && w2.children == w.children
                && w2.is_leaf == w.is_leaf && w2.offset == w.offset && w2.is_root == w.is_root);
            if w.is_leaf {
                assert(g2.leaves[(g2.pos)(q)] == q);
                assert(leaf_ok(g2, q, w2));
            } else {
                assert forall|t: int| 0 <= t < w2.children.len() implies #[trigger] child_ok(
                    g2,
                    q,
                    w2,
                    t,
                ) by {
                    assert(child_ok(g, q, w, t));
                    let c = w.children[t].0 as int;
                    if c == p {
                        assert((g.parent)(p) == q);
                    }
                }
                assert(inner_ok(g2, q, w2));
            }
        }
    }
}

/// After a leaf split, the parent of the leaf agrees with the layout once
/// it has taken up the separator and the new leaf.
pub proof fn lemma_leaf_split_gap(
    store: Store,
    free: Seq<usize>,
    g: Shape,
    p: int,
    i: int,
    key: usize,
    row: RowView,
    n: int,
    right: NodeView,
)
    requires
        leaf_split_ready(store, free, g, p, i, key, n),
        is_upper_leaf(store[p]->0, key, row, p, n, right),
        p != 0,
    ensures
        gap_ok(
            split_leaf_store(store, p, key, row, n, right),
            free,
            split_leaf_shape(g, p, n, leaf_separator(store[p]->0, key, row)),
            (g.parent)(p),
            i,
            leaf_separator(store[p]->0, key, row),
            n,
        ),
{
    let v = store[p]->0;
    let sep = leaf_separator(v, key, row);
    let g2 = split_leaf_shape(g, p, n, sep);
    let store2 = split_leaf_store(store, p, key, row, n, right);
    let par = (g.parent)(p);
    lemma_split_leaf_store(store, free, g, p, i, key, row, n, right);
    lemma_leaf_halves(store, free, g, p, i, key, row, n, right);
    lemma_leaf_ranges(store, free, g);
    assert(page_ok(store, free, g, par));
    assert(page_ok(store, free, g, p));
    let u = store[par]->0;
    assert(store2[par] == store[par]);
    lemma_absorb_ok(g, g2, par, u, i, sep, p, n);
}

/// An internal node whose child `i` gave the keys from `sep` on to a new
/// page `n` agrees with the layout once it has taken up `sep` and `n`.
pub proof fn lemma_absorb_ok(
    g: Shape,
    g2: Shape,
    par: int,
    u: NodeView,
    i: int,
    sep: usize,
    p: int,
    n: int,
)
    requires
        node_ok(g, par, u),
        !u.is_leaf,
        0 <= i < u.children.len(),
        u.children[i].0 == p,
        0 < n <= u32::MAX,
        p != n,
        par != n,
        par != p,
        !g.pages.contains(n),
        g2.pages.contains(n),
        forall|q: int| g.pages.contains(q) ==> g2.pages.contains(q),
        forall|q: int| q != n ==> #[trigger] (g2.level)(q) == (g.level)(q),
        forall|q: int| q != n ==> #[trigger] (g2.lo)(q) == (g.lo)(q),
        forall|q: int| q != n && (g.parent)(q) == par ==> #[trigger] (g2.parent)(q) == par,
        forall|q: int| q != n && q != p ==> #[trigger] (g2.hi)(q) == (g.hi)(q),
        (g2.hi)(p) == sep,
        (g2.lo)(n) == sep,
        (g2.hi)(n) == (g.hi)(p),
        (g2.level)(n) == (g.level)(p),
        (g2.parent)(n) == par,
        (g.lo)(p) < sep < (g.hi)(p),
    ensures
        node_ok_wide(g2, par, absorb(u, i, sep, n)),
        rank(u.keys, sep) == i,
        !has_key(u.keys, sep),
{
    let a = absorb(u, i, sep, n);
    assert(child_ok(g, par, u, i));
    assert forall|t: int| 0 <= t < i implies u.keys[t] < sep by {
        if t < i - 1 {
            assert(u.keys[t] < u.keys[i - 1]);
        }
    }
    assert forall|t: int| i <= t < u.keys.len() implies u.keys[t] > sep by {
        if t > i {
            assert(u.keys[i] < u.keys[t]);
        }
    }
    lemma_rank_unique(u.keys, sep, i);
    if has_key(u.keys, sep) {
        let t = choose|t: int| 0 <= t < u.keys.len() && u.keys[t] == sep;
        assert(false);
    }
    lemma_insert_key_keeps_order(u.keys, i, sep);
    assert forall|t: int| 0 <= t < a.keys.len() implies (g2.lo)(par) < #[trigger] a.keys[t] < (
    g2.hi)(par) by {
        if t < i {
            assert(a.keys[t] == u.keys[t]);
        } else if t > i {
            assert(a.keys[t] == u.keys[t - 1]);
        }
    }
    assert forall|t: int| 0 <= t < a.children.len() implies #[trigger] child_ok(g2, par, a, t) by {
        if t <= i {
            assert(child_ok(g, par, u, t));
            assert(a.children[t] == u.children[t]);
            if t < i {
                lemma_children_distinct_weak(g, par, u, t, i);
            }
        } else if t == i + 1 {
        } else {
            assert(child_ok(g, par, u, t - 1));
            assert(a.children[t] == u.children[t - 1]);
            lemma_children_distinct_weak(g, par, u, i, t - 1);
        }
    }
    assert(inner_ok(g2, par, a));
}

/// The children of an internal node that agrees with the layout are
/// different pages: each starts behind the start of those before it.
pub proof fn lemma_children_distinct_weak(g: Shape, p: int, v: NodeView, i: int, j: int)
    requires
        node_ok_wide(g, p, v),
        !v.is_leaf,
        0 <= i < j < v.children.len(),
    ensures
        (g.lo)(v.children[i].0 as int) < (g.lo)(v.children[j].0 as int),
        v.children[i].0 != v.children[j].0,
{
    assert(child_ok(g, p, v, i));
    assert(child_ok(g, p, v, j));
    assert((g.lo)(p) < v.keys[j - 1]);
    if 0 < i {
        assert(v.keys[i - 1] < v.keys[j - 1]);
    }
}

/// After a leaf split the leaves form one chain.
pub proof fn lemma_leaf_split_chain(
    store: Store,
    free: Seq<usize>,
    g: Shape,
    p: int,
    i: int,
    key: usize,
    row: RowView,
    n: int,
    right: NodeView,
)
    requires
        leaf_split_ready(store, free, g, p, i, key, n),
        is_upper_leaf(store[p]->0, key, row, p, n, right),
    ensures
        chain_ok(
            split_leaf_store(store, p, key, row, n, right),
            split_leaf_shape(g, p, n, leaf_separator(store[p]->0, key, row)),
        ),
{
    let v = store[p]->0;
    let sep = leaf_separator(v, key, row);
    let g2 = split_leaf_shape(g, p, n, sep);
    let store2 = split_leaf_store(store, p, key, row, n, right);
    let k = (g.pos)(p);
    let len = g.leaves.len() as int;
    lemma_split_leaf_store(store, free, g, p, i, key, row, n, right);
    lemma_leaf_ranges(store, free, g);
    assert(link_ok(store, g, k));
    assert forall|j: int| 0 <= j < g2.leaves.len() implies #[trigger] link_ok(store2, g2, j) by {
        if j <= k {
            assert(link_ok(store, g, j));
            assert(g2.leaves[j] == g.leaves[j]);
            if j > 0 {
                assert(g2.leaves[j - 1] == g.leaves[j - 1]);
                assert(link_ok(store, g, j - 1));
            }
            if j < k {
                assert(g2.leaves[j + 1] == g.leaves[j + 1]);
                assert(link_ok(store, g, j + 1));
                assert(page_ok(store, free, g, g.leaves[j]));
            }
        } else if j == k + 1 {
            assert(g2.leaves[j] == n);
            assert(g2.leaves[j - 1] == p);
            if k + 1 < len {
                assert(g2.leaves[j + 1] == g.leaves[k + 1]);
                assert(link_ok(store, g, k + 1));
            }
        } else {
            assert(g2.leaves[j] == g.leaves[j - 1]);
            assert(link_ok(store, g, j - 1));
            assert(link_ok(store, g, j - 2));
            assert(page_ok(store, free, g, g.leaves[j - 1]));
            if j == k + 2 {
                assert(g2.leaves[j - 1] == n);
            } else {
                assert(g2.leaves[j - 1] == g.leaves[j - 2]);
            }
            if j < len {
                assert(g2.leaves[j + 1] == g.leaves[j]);
                assert(link_ok(store, g, j));
            }
        }
    }
    assert(g2.leaves[0] == g.leaves[0]);
    assert(link_ok(store, g, 0));
    assert(g.leaves[0] != n);
    assert((g2.lo)(g2.leaves[0]) == 0);
    if k + 1 < len {
        assert(g2.leaves.last() == g.leaves.last());
        assert(link_ok(store, g, len - 1));
        assert(g.leaves.last() != p);
        assert(g.leaves.last() != n);
    } else {
        assert(g2.leaves.last() == n);
    }
    assert((g2.hi)(g2.leaves.last()) == key_ceiling());
}

/// After a leaf split the table holds what it held, and the new cell.
pub proof fn lemma_leaf_split_entries(
    store: Store,
    free: Seq<usize>,
    g: Shape,
    p: int,
    i: int,
    key: usize,
    row: RowView,
    n: int,
    right: NodeView,
)
    requires
        leaf_split_ready(store, free, g, p, i, key, n),
        is_upper_leaf(store[p]->0, key, row, p, n, right),
    ensures
        tree_entries(
            split_leaf_store(store, p, key, row, n, right),
            split_leaf_shape(g, p, n, leaf_separator(store[p]->0, key, row)),
        ) == tree_entries(store, g).insert(
            (prefix_len(store, g.leaves, (g.pos)(p) as nat) + rank(store[p]->0.keys, key)) as int,
            (key, row),
        ),
{
    let v = store[p]->0;
    let sep = leaf_separator(v, key, row);
    let g2 = split_leaf_shape(g, p, n, sep);
    let store2 = split_leaf_store(store, p, key, row, n, right);
    let k = (g.pos)(p);
    let len = g.leaves.len();
    lemma_split_leaf_store(store, free, g, p, i, key, row, n, right);
    lemma_leaf_halves(store, free, g, p, i, key, row, n, right);
    lemma_leaf_ranges(store, free, g);
    lemma_entries_around(store, g.leaves, k);
    lemma_entries_split(store2, g2.leaves, (k + 2) as nat, len + 1);
    assert(link_ok(store, g, k));
    if k + 1 < len {
        assert(link_ok(store, g, k + 1));
    }
    assert forall|j: int| 0 <= j < k implies leaf_entries(store[#[trigger] g.leaves[j]]->0)
        == leaf_entries(store2[g2.leaves[j]]->0) by {
        let q = g.leaves[j];
        assert(g2.leaves[j] == q);
        assert(link_ok(store, g, j));
        assert(page_ok(store, free, g, q));
        assert(q != p && q != n);
        assert(store2[q] == store[q]);
    }
    lemma_entries_upto_same(store, g.leaves, store2, g2.leaves, k as nat);
    assert forall|j: int| k + 1 <= j < len implies leaf_entries(store[#[trigger] g.leaves[j]]->0)
        == leaf_entries(store2[g2.leaves[j + 1]]->0) by {
        let q = g.leaves[j];
        assert(g2.leaves[j + 1] == q);
        assert(link_ok(store, g, j));
        assert(page_ok(store, free, g, q));
        assert(q != p && q != n);
        if j > k + 1 {
            assert(store2[q] == store[q]);
        }
    }
    lemma_entries_from_same(store, g.leaves, (k + 1) as nat, len, store2, g2.leaves, 1);
    let a = entries_upto(store, g.leaves, k as nat);
    let c = entries_from(store, g.leaves, (k + 1) as nat, len);
    let left = lower_leaf(v, key, row, n);
    assert(g2.leaves[k] == p);
    assert(g2.leaves[k + 1] == n);
    assert(entries_upto(store2, g2.leaves, (k + 1) as nat) == a + leaf_entries(left));
    assert(entries_upto(store2, g2.leaves, (k + 2) as nat) == a + leaf_entries(left) + leaf_entries(
        right,
    ));
    assert(a + leaf_entries(left) + leaf_entries(right) =~= a + (leaf_entries(left) + leaf_entries(
        right,
    )));
    lemma_concat_insert(a, leaf_entries(v), c, rank(v.keys, key) as int, (key, row));
}

/// A full leaf of a tree splits on taking up a cell: the tree is a tree
/// again once the parent has taken up the separator and the new leaf, and
/// the table holds what it held, and the new cell.
pub proof fn lemma_leaf_split(
    store: Store,
    free: Seq<usize>,
    g: Shape,
    p: int,
    i: int,
    key: usize,
    row: RowView,
    n: int,
    right: NodeView,
)
    requires
        leaf_split_ready(store, free, g, p, i, key, n),
        is_upper_leaf(store[p]->0, key, row, p, n, right),
    ensures
        pending(
            split_leaf_store(store, p, key, row, n, right),
            free,
            split_leaf_shape(g, p, n, leaf_separator(store[p]->0, key, row)),
            p,
            i,
            leaf_separator(store[p]->0, key, row),
            n,
        ),
        tree_entries(
            split_leaf_store(store, p, key, row, n, right),
            split_leaf_shape(g, p, n, leaf_separator(store[p]->0, key, row)),
        ) == tree_entries(store, g).insert(
            (prefix_len(store, g.leaves, (g.pos)(p) as nat) + rank(store[p]->0.keys, key)) as int,
            (key, row),
        ),
{
    lemma_split_leaf_store(store, free, g, p, i, key, row, n, right);
    lemma_leaf_halves(store, free, g, p, i, key, row, n, right);
    lemma_leaf_split_pages(store, free, g, p, i, key, row, n, right);
    lemma_leaf_split_chain(store, free, g, p, i, key, row, n, right);
    lemma_leaf_split_entries(store, free, g, p, i, key, row, n, right);
    assert(page_ok(store, free, g, p));
    assert(page_ok(store, free, g, 0));
    if p != 0 {
        lemma_leaf_split_gap(store, free, g, p, i, key, row, n, right);
        let par = (g.parent)(p);
        assert(page_ok(store, free, g, par));
    } else {
        crate::shape::lemma_root_leaf_alone(store, free, g);
    }
}

/// Whether the node `w` holds what the node `a` holds, whatever parent
/// and neighbours either records.
pub open spec fn same_content(w: NodeView, a: NodeView) -> bool {
    &&& w.keys == a.keys
    &&& w.rows == a.rows
    &&& w.children == a.children
    &&& w.is_leaf == a.is_leaf
    &&& w.is_root == a.is_root
    &&& w.offset == a.offset
}

/// Nodes of the same content agree with a layout alike, but for a leaf's
/// links.
pub proof fn lemma_same_content_ok(g: Shape, p: int, a: NodeView, w: NodeView)
    requires
        same_content(w, a),
        node_ok_wide(g, p, a),
    ensures
        node_ok_wide(g, p, w),
{
    if !a.is_leaf {
        assert forall|t: int| 0 <= t < w.children.len() implies #[trigger] child_ok(g, p, w, t) by {
            assert(child_ok(g, p, a, t));
        }
    }
}

/// The parent of a page that split takes up the separator and the new page
/// without splitting: the tree is a tree again, with the table it held.
pub proof fn lemma_absorbed(
    store: Store,
    free: Seq<usize>,
    g: Shape,
    p: int,
    i: int,
    sep: usize,
    n: int,
    w: NodeView,
)
    requires
        pending(store, free, g, p, i, sep, n),
        p != 0,
        same_content(w, absorb(store[(g.parent)(p)]->0, i, sep, n)),
        w.keys.len() <= MAX_INTERNAL_NODES,
    ensures
        inv(store.update((g.parent)(p), Some(w)), free, g),
        tree_entries(store.update((g.parent)(p), Some(w)), g) == tree_entries(store, g),
{
    let par = (g.parent)(p);
    let store2 = store.update(par, Some(w));
    let a = absorb(store[par]->0, i, sep, n);
    lemma_same_content_ok(g, par, a, w);
    assert forall|q: int| g.pages.contains(q) implies #[trigger] page_ok(store2, free, g, q) by {
        if q != par {
            assert(page_ok(store, free, g, q));
        }
    }
    assert forall|j: int| 0 <= j < g.leaves.len() implies #[trigger] link_ok(store2, g, j) by {
        assert(link_ok(store, g, j));
        assert(page_ok(store, free, g, g.leaves[j]));
    }
    assert forall|j: int| 0 <= j < g.leaves.len() implies leaf_entries(
        store[#[trigger] g.leaves[j]]->0,
    ) == leaf_entries(store2[g.leaves[j]]->0) by {
        assert(link_ok(store, g, j));
        assert(page_ok(store, free, g, g.leaves[j]));
    }
    lemma_entries_upto_same(store, g.leaves, store2, g.leaves, g.leaves.len());
}

/// The layout after the internal page `par` gave the keys from `promoted`
/// on, with the children that cover them, to the new page `m`.
pub open spec fn split_inner_shape(g: Shape, par: int, m: int, promoted: usize) -> Shape {
    Shape {
        pages: g.pages.insert(m),
        level: |q: int| if q == m { (g.level)(par) } else { (g.level)(q) },
        lo: |q: int| if q == m { promoted as int } else { (g.lo)(q) },
        hi: |q: int|
            if q == par {
                promoted as int
            } else if q == m {
                (g.hi)(par)
            } else {
                (g.hi)(q)
            },
        parent: |q: int|
            if q == m {
                (g.parent)(par)
            } else if (g.parent)(q) == par && (g.level)(q) + 1 == (g.level)(par) && (g.lo)(q)
                >= promoted && q != 0 {
                m
            } else {
                (g.parent)(q)
            },
        pos: g.pos,
        leaves: g.leaves,
    }
}

/// Whether `wl` and `wu`, at the pages `par` and `m`, are the two halves of
/// the internal node `a` that split: `wl` keeps the separators before the
/// split point and one child more, `wu` holds those behind the promoted
/// separator.
pub open spec fn is_inner_halves(a: NodeView, par: int, m: int, wl: NodeView, wu: NodeView) -> bool {
    let at = internal_split_point(a.keys.len() as int);
    &&& !wl.is_leaf
    &&& wl.is_root == a.is_root
    &&& wl.offset == a.offset
    &&& wl.rows.len() == 0
    &&& wl.keys == a.keys.subrange(0, at)
    &&& wl.children == a.children.subrange(0, at + 1)
    &&& !wu.is_leaf
    &&& !wu.is_root
    &&& wu.offset == Offset(m as usize)
    &&& wu.rows.len() == 0
    &&& wu.keys == a.keys.subrange(at + 1, a.keys.len() as int)
    &&& wu.children == a.children.subrange(at + 1, a.children.len() as int)
}

/// What holds where the parent of a page that split is about to split
/// itself, with the page `m` allotted for its upper half.
pub open spec fn inner_split_ready(
    store: Store,
    free: Seq<usize>,
    g: Shape,
    p: int,
    i: int,
    sep: usize,
    n: int,
    j: int,
    m: int,
) -> bool {
    let par = (g.parent)(p);
    &&& pending(store, free, g, p, i, sep, n)
    &&& p != 0
    &&& store[par]->0.keys.len() == MAX_INTERNAL_NODES
    &&& 0 <= m < store.len()
    &&& !g.pages.contains(m)
    &&& forall|t: int| 0 <= t < free.len() ==> #[trigger] free[t] != m
    &&& (g.level)(0) + g.leaves.len() + free.len() + 1 <= store.len()
    &&& par != 0 ==> {
        let pp = (g.parent)(par);
        &&& g.pages.contains(pp)
        &&& pp != par
        &&& 0 <= j < store[pp]->0.children.len()
        &&& store[pp]->0.children[j].0 == par
        &&& !store[pp]->0.is_leaf
    }
}

/// The two halves of an internal node that splits agree with the layout
/// after the split.
pub proof fn lemma_inner_halves(
    store: Store,
    free: Seq<usize>,
    g: Shape,
    p: int,
    i: int,
    sep: usize,
    n: int,
    j: int,
    m: int,
    wl: NodeView,
    wu: NodeView,
)
    requires
        inner_split_ready(store, free, g, p, i, sep, n, j, m),
        is_inner_halves(absorb(store[(g.parent)(p)]->0, i, sep, n), (g.parent)(p), m, wl, wu),
    ensures
        ({
            let par = (g.parent)(p);
            let a = absorb(store[par]->0, i, sep, n);
            let promoted = a.keys[internal_split_point(a.keys.len() as int)];
            let g3 = split_inner_shape(g, par, m, promoted);
            &&& node_ok(g3, par, wl)
            &&& node_ok(g3, m, wu)
            &&& (g.lo)(par) < promoted < (g.hi)(par)
            &&& (g.level)(par) > 0
        }),
{
    let par = (g.parent)(p);
    let a = absorb(store[par]->0, i, sep, n);
    let at = internal_split_point(a.keys.len() as int);
    let promoted = a.keys[at];
    let g3 = split_inner_shape(g, par, m, promoted);
    assert(a.keys.len() == MAX_INTERNAL_NODES + 1);
    assert(a.children.len() == a.keys.len() + 1);
    lemma_key_subrange_keeps_order(a.keys, 0, at);
    lemma_key_subrange_keeps_order(a.keys, at + 1, a.keys.len() as int);
    assert forall|t: int| 0 <= t < wl.keys.len() implies (g3.lo)(par) < #[trigger] wl.keys[t] < (
    g3.hi)(par) by {
        assert(wl.keys[t] == a.keys[t]);
        assert(a.keys[t] < a.keys[at]);
    }
    assert forall|t: int| 0 <= t < wu.keys.len() implies (g3.lo)(m) < #[trigger] wu.keys[t] < (
    g3.hi)(m) by {
        assert(wu.keys[t] == a.keys[at + 1 + t]);
        assert(a.keys[at] < a.keys[at + 1 + t]);
    }
    assert forall|t: int| 0 <= t < wl.children.len() implies #[trigger] child_ok(g3, par, wl, t) by {
        assert(child_ok(g, par, a, t));
        assert(wl.children[t] == a.children[t]);
        let c = a.children[t].0 as int;
        if t > 0 {
            assert(a.keys[t - 1] < a.keys[at]);
        }
    }
    assert forall|t: int| 0 <= t < wu.children.len() implies #[trigger] child_ok(g3, m, wu, t) by {
        assert(child_ok(g, par, a, at + 1 + t));
        assert(wu.children[t] == a.children[at + 1 + t]);
        if t > 0 {
            assert(a.keys[at] < a.keys[at + t]);
        }
    }
    assert(inner_ok(g3, par, wl));
    assert(inner_ok(g3, m, wu));
}

/// The parent of a page that split splits itself on taking up the
/// separator and the new page: the tree is a tree again once the parent's
/// parent has taken up the promoted separator and the new internal page,
/// and the table is the one it was.
pub proof fn lemma_inner_split(
    store: Store,
    free: Seq<usize>,
    g: Shape,
    p: int,
    i: int,
    sep: usize,
    n: int,
    j: int,
    m: int,
    wl: NodeView,
    wu: NodeView,
)
    requires
        inner_split_ready(store, free, g, p, i, sep, n, j, m),
        is_inner_halves(absorb(store[(g.parent)(p)]->0, i, sep, n), (g.parent)(p), m, wl, wu),
    ensures
        ({
            let par = (g.parent)(p);
            let a = absorb(store[par]->0, i, sep, n);
            let promoted = a.keys[internal_split_point(a.keys.len() as int)];
            let g3 = split_inner_shape(g, par, m, promoted);
            let store3 = store.update(par, Some(wl)).update(m, Some(wu));
            &&& pending(store3, free, g3, par, j, promoted, m)
            &&& tree_entries(store3, g3) == tree_entries(store, g)
            &&& (g3.level)(0) == (g.level)(0)
        }),
{
    let par = (g.parent)(p);
    let a = absorb(store[par]->0, i, sep, n);
    let promoted = a.keys[internal_split_point(a.keys.len() as int)];
    let g3 = split_inner_shape(g, par, m, promoted);
    let store3 = store.update(par, Some(wl)).update(m, Some(wu));
    lemma_inner_halves(store, free, g, p, i, sep, n, j, m, wl, wu);
    assert forall|q: int|
        g3.pages.contains(q) && (par == 0 || q != (g3.parent)(par)) implies #[trigger] page_ok(
        store3,
        free,
        g3,
        q,
    ) by {
        if q == par || q == m {
        } else {
            assert(page_ok(store, free, g, q));
            let w = store[q]->0;
            if !w.is_leaf {
                assert forall|t: int| 0 <= t < w.children.len() implies #[trigger] child_ok(
                    g3,
                    q,
                    w,
                    t,
                ) by {
                    assert(child_ok(g, q, w, t));
                }
            }
        }
    }
    assert forall|t: int| 0 <= t < g.leaves.len() implies #[trigger] link_ok(store3, g3, t) by {
        assert(link_ok(store, g, t));
        assert(page_ok(store, free, g, g.leaves[t]));
        if t + 1 < g.leaves.len() {
            assert(link_ok(store, g, t + 1));
        }
    }
    assert forall|t: int| 0 <= t < g.leaves.len() implies leaf_entries(
        store[#[trigger] g.leaves[t]]->0,
    ) == leaf_entries(store3[g3.leaves[t]]->0) by {
        assert(link_ok(store, g, t));
        assert(page_ok(store, free, g, g.leaves[t]));
    }
    assert(link_ok(store, g, 0));
    assert(link_ok(store, g, g.leaves.len() - 1));
    lemma_entries_upto_same(store, g.leaves, store3, g3.leaves, g.leaves.len());
    if par != 0 {
        let pp = (g.parent)(par);
        assert(page_ok(store, free, g, pp));
        assert(store3[pp] == store[pp]);
        lemma_absorb_ok(g, g3, pp, store[pp]->0, j, promoted, par, m);
    }
}

/// The layout after the root moved to the page `r` and page 0 became a new
/// root over `r` and the page `n` that split off the old root.
pub open spec fn grow_shape(g: Shape, r: int, n: int) -> Shape {
    Shape {
        pages: g.pages.insert(r),
        level: |q: int|
            if q == 0 {
                (g.level)(0) + 1
            } else if q == r {
                (g.level)(0)
            } else {
                (g.level)(q)
            },
        lo: |q: int| if q == r { 0int } else { (g.lo)(q) },
        hi: |q: int|
            if q == 0 {
                key_ceiling()
            } else if q == r {
                (g.hi)(0)
            } else {
                (g.hi)(q)
            },
        parent: |q: int|
            if q == 0 || q == r || q == n {
                0int
            } else if (g.parent)(q) == 0 {
                r
            } else {
                (g.parent)(q)
            },
        pos: |q: int| if q == r { (g.pos)(0) } else { (g.pos)(q) },
        leaves: if (g.level)(0) == 0 {
            g.leaves.update((g.pos)(0), r)
        } else {
            g.leaves
        },
    }
}

/// What holds where the root of a tree has split and is about to be
/// replaced, with the page `r` allotted for the old root.
pub open spec fn grow_ready(
    store: Store,
    free: Seq<usize>,
    g: Shape,
    i: int,
    sep: usize,
    n: int,
    r: int,
) -> bool {
    &&& pending(store, free, g, 0, i, sep, n)
    &&& 0 <= r < store.len()
    &&& !g.pages.contains(r)
    &&& forall|t: int| 0 <= t < free.len() ==> #[trigger] free[t] != r
    &&& (g.level)(0) + g.leaves.len() + free.len() + 1 <= store.len()
}

/// Whether `wr`, `wn` and `w0` are the old root at its new page `r`, the
/// page `n` that split off it, and the new root over the two: the old root
/// with its content, `n` with its content and, where it is a leaf, `r` as
/// the leaf before it, and a root of the one separator `sep`.
pub open spec fn is_grown(
    store: Store,
    sep: usize,
    n: int,
    r: int,
    wr: NodeView,
    wn: NodeView,
    w0: NodeView,
) -> bool {
    let old_root = store[0]->0;
    let old_n = store[n]->0;
    &&& wr.keys == old_root.keys
    &&& wr.rows == old_root.rows
    &&& wr.children == old_root.children
    &&& wr.is_leaf == old_root.is_leaf
    &&& wr.prev_leaf == old_root.prev_leaf
    &&& wr.next_leaf == old_root.next_leaf
    &&& !wr.is_root
    &&& wr.offset == Offset(r as usize)
    &&& same_content(wn, old_n)
    &&& wn.next_leaf == old_n.next_leaf
    &&& wn.prev_leaf == (if old_root.is_leaf {
        Some(Offset(r as usize))
    } else {
        old_n.prev_leaf
    })
    &&& !w0.is_leaf
    &&& w0.is_root
    &&& w0.offset == Offset(0)
    &&& w0.rows.len() == 0
    &&& w0.keys == seq![sep]
    &&& w0.children == seq![Offset(r as usize), Offset(n as usize)]
}

/// A root leaf that has split is the first leaf, and the page that split
/// off it the second.
pub proof fn lemma_root_leaf_pending(
    store: Store,
    free: Seq<usize>,
    g: Shape,
    i: int,
    sep: usize,
    n: int,
)
    requires
        pending(store, free, g, 0, i, sep, n),
        (g.level)(0) == 0,
    ensures
        g.leaves =~= seq![0int, n],
        (g.pos)(0) == 0,
        (g.pos)(n) == 1,
{
    assert(page_ok(store, free, g, 0));
    assert(page_ok(store, free, g, n));
    assert forall|k: int| 0 <= k < g.leaves.len() implies (g.lo)(g.leaves[k]) < (g.hi)(
        #[trigger] g.leaves[k],
    ) by {
        assert(link_ok(store, g, k));
        assert(page_ok(store, free, g, g.leaves[k]));
    }
    let k0 = (g.pos)(0);
    let kn = (g.pos)(n);
    assert(link_ok(store, g, 0));
    assert(link_ok(store, g, g.leaves.len() - 1));
    if k0 > 0 {
        lemma_ranges_ascend(store, g, 0, k0);
        assert((g.lo)(g.leaves[0]) < (g.hi)(g.leaves[0]));
    }
    if kn + 1 < g.leaves.len() {
        lemma_ranges_ascend(store, g, kn, g.leaves.len() - 1);
        assert((g.lo)(g.leaves[g.leaves.len() - 1]) < (g.hi)(g.leaves[g.leaves.len() - 1]));
    }
    if kn > 1 {
        lemma_ranges_ascend(store, g, 1, kn);
        assert(link_ok(store, g, 0));
        assert((g.lo)(g.leaves[1]) < (g.hi)(g.leaves[1]));
    }
}

/// The pages of a tree whose root was replaced agree with the layout after
/// the replacement.
pub proof fn lemma_grow_pages(
    store: Store,
    free: Seq<usize>,
    g: Shape,
    i: int,
    sep: usize,
    n: int,
    r: int,
    wr: NodeView,
    wn: NodeView,
    w0: NodeView,
)
    requires
        grow_ready(store, free, g, i, sep, n, r),
        is_grown(store, sep, n, r, wr, wn, w0),
    ensures
        ({
            let g3 = grow_shape(g, r, n);
            let store3 = store.update(r, Some(wr)).update(n, Some(wn)).update(0, Some(w0));
            forall|q: int| g3.pages.contains(q) ==> #[trigger] page_ok(store3, free, g3, q)
        }),
{
    let g3 = grow_shape(g, r, n);
    let store3 = store.update(r, Some(wr)).update(n, Some(wn)).update(0, Some(w0));
    assert(page_ok(store, free, g, 0));
    assert(page_ok(store, free, g, n));
    let v0 = store[0]->0;
    let vn = store[n]->0;
    if (g.level)(0) == 0 {
        lemma_root_leaf_pending(store, free, g, i, sep, n);
    }
    assert forall|q: int| g3.pages.contains(q) implies #[trigger] page_ok(store3, free, g3, q) by {
        if q == 0 {
            assert(child_ok(g3, 0, w0, 0));
            assert(child_ok(g3, 0, w0, 1));
            assert forall|t: int| 0 <= t < w0.children.len() implies #[trigger] child_ok(
                g3,
                0,
                w0,
                t,
            ) by {
                if t == 0 {
                } else {
                    assert(t == 1);
                }
            }
            assert(inner_ok(g3, 0, w0));
            assert(node_ok(g3, 0, w0));
        } else if q == r {
            if v0.is_leaf {
                assert(g3.leaves[(g3.pos)(r)] == r);
                assert(leaf_ok(g3, r, wr));
            } else {
                assert forall|t: int| 0 <= t < wr.children.len() implies #[trigger] child_ok(
                    g3,
                    r,
                    wr,
                    t,
                ) by {
                    assert(child_ok(g, 0, v0, t));
                }
                assert(inner_ok(g3, r, wr));
            }
            assert(node_ok(g3, r, wr));
        } else if q == n {
            if vn.is_leaf {
                assert(g3.leaves[(g3.pos)(n)] == n);
                assert(leaf_ok(g3, n, wn));
            } else {
                assert forall|t: int| 0 <= t < wn.children.len() implies #[trigger] child_ok(
                    g3,
                    n,
                    wn,
                    t,
                ) by {
                    assert(child_ok(g, n, vn, t));
                }
                assert(inner_ok(g3, n, wn));
            }
            assert(node_ok(g3, n, wn));
        } else {
            assert(page_ok(store, free, g, q));
            let w = store[q]->0;
            assert(store3[q] == store[q]);
            if w.is_leaf {
                assert(g3.leaves[(g3.pos)(q)] == q);
                assert(leaf_ok(g3, q, w));
            } else {
                assert forall|t: int| 0 <= t < w.children.len() implies #[trigger] child_ok(
                    g3,
                    q,
                    w,
                    t,
                ) by {
                    assert(child_ok(g, q, w, t));
                }
                assert(inner_ok(g3, q, w));
            }
        }
    }
}

/// The root of a tree that has split is replaced: the tree is a tree again,
/// one level higher, with the table it held.
pub proof fn lemma_grown(
    store: Store,
    free: Seq<usize>,
    g: Shape,
    i: int,
    sep: usize,
    n: int,
    r: int,
    wr: NodeView,
    wn: NodeView,
    w0: NodeView,
)
    requires
        grow_ready(store, free, g, i, sep, n, r),
        is_grown(store, sep, n, r, wr, wn, w0),
    ensures
        ({
            let g3 = grow_shape(g, r, n);
            let store3 = store.update(r, Some(wr)).update(n, Some(wn)).update(0, Some(w0));
            &&& inv(store3, free, g3)
            &&& tree_entries(store3, g3) == tree_entries(store, g)
            &&& (g3.level)(0) == (g.level)(0) + 1
        }),
{
    let g3 = grow_shape(g, r, n);
    let store3 = store.update(r, Some(wr)).update(n, Some(wn)).update(0, Some(w0));
    lemma_grow_pages(store, free, g, i, sep, n, r, wr, wn, w0);
    assert(page_ok(store, free, g, 0));
    assert(page_ok(store, free, g, n));
    if (g.level)(0) == 0 {
        lemma_root_leaf_pending(store, free, g, i, sep, n);
        assert(link_ok(store, g, 0));
        assert(link_ok(store, g, 1));
        assert(g3.leaves =~= seq![r, n]);
        assert(link_ok(store3, g3, 0));
        assert(link_ok(store3, g3, 1));
        assert(entries_upto(store, g.leaves, 0) =~= Seq::empty());
        assert(entries_upto(store3, g3.leaves, 0) =~= Seq::empty());
        assert(entries_upto(store, g.leaves, 1) =~= leaf_entries(store[0]->0));
        assert(entries_upto(store3, g3.leaves, 1) =~= leaf_entries(wr));
        assert(leaf_entries(wr) == leaf_entries(store[0]->0));
        assert(leaf_entries(wn) == leaf_entries(store[n]->0));
    } else {
        assert forall|t: int| 0 <= t < g.leaves.len() implies #[trigger] link_ok(store3, g3, t) by {
            assert(link_ok(store, g, t));
            assert(page_ok(store, free, g, g.leaves[t]));
            if t + 1 < g.leaves.len() {
                assert(link_ok(store, g, t + 1));
            }
        }
        assert forall|t: int| 0 <= t < g.leaves.len() implies leaf_entries(
            store[#[trigger] g.leaves[t]]->0,
        ) == leaf_entries(store3[g3.leaves[t]]->0) by {
            assert(link_ok(store, g, t));
            assert(page_ok(store, free, g, g.leaves[t]));
        }
        assert(link_ok(store, g, 0));
        assert(link_ok(store, g, g.leaves.len() - 1));
        lemma_entries_upto_same(store, g.leaves, store3, g3.leaves, g.leaves.len());
    }
}

/// A page that has split stays so where the pages of the tree stay as they
/// are, no page is taken away, and no offset joins the recycled ones.
pub proof fn lemma_pending_frame(
    store: Store,
    free: Seq<usize>,
    g: Shape,
    p: int,
    i: int,
    sep: usize,
    n: int,
    store2: Store,
    free2: Seq<usize>,
)
    requires
        pending(store, free, g, p, i, sep, n),
        store.len() <= store2.len() <= u32::MAX,
        forall|q: int| 0 <= q < store.len() ==> #[trigger] store2[q] == store[q],
        forall|j: int| 0 <= j < free2.len() ==> free.contains(#[trigger] free2[j]),
        forall|a: int, b: int| 0 <= a < b < free2.len() ==> free2[a] != free2[b],
        (g.level)(0) + g.leaves.len() + free2.len() <= store2.len(),
    ensures
        pending(store2, free2, g, p, i, sep, n),
        tree_entries(store2, g) == tree_entries(store, g),
{
    let par = (g.parent)(p);
    assert forall|q: int|
        g.pages.contains(q) && (p == 0 || q != par) implies #[trigger] page_ok(store2, free2, g, q) by {
        assert(page_ok(store, free, g, q));
        assert(store2[q] == store[q]);
        assert forall|j: int| 0 <= j < free2.len() implies #[trigger] free2[j] != q by {
            let t = choose|t: int| 0 <= t < free.len() && free[t] == free2[j];
            assert(free[t] != q);
        }
    }
    assert forall|k: int| 0 <= k < g.leaves.len() implies #[trigger] link_ok(store2, g, k) by {
        assert(link_ok(store, g, k));
        assert(page_ok(store, free, g, g.leaves[k]));
    }
    assert forall|k: int| 0 <= k < g.leaves.len() implies leaf_entries(
        store[#[trigger] g.leaves[k]]->0,
    ) == leaf_entries(store2[g.leaves[k]]->0) by {
        assert(link_ok(store, g, k));
        assert(page_ok(store, free, g, g.leaves[k]));
    }
    lemma_entries_upto_same(store, g.leaves, store2, g.leaves, g.leaves.len());
    assert(page_ok(store, free, g, p));
    assert(store2[p] == store[p]);
    if p != 0 {
        assert(store2[par] == store[par]);
        assert forall|j: int| 0 <= j < free2.len() implies #[trigger] free2[j] != par by {
            let t = choose|t: int| 0 <= t < free.len() && free[t] == free2[j];
            assert(free[t] != par);
        }
    }
}

/// The page that the next allotment hands out: the smallest recycled
/// offset, else the offset behind all pages.
pub open spec fn allot_page(store: Store, free: Seq<usize>) -> int {
    if free.len() > 0 {
        free[crate::pager::min_index(free)] as int
    } else {
        store.len() as int
    }
}

/// The store after the next allotment.
pub open spec fn allot_store(store: Store, free: Seq<usize>) -> Store {
    if free.len() > 0 {
        store
    } else {
        store.push(None)
    }
}

/// The recycled offsets after the next allotment.
pub open spec fn allot_free(free: Seq<usize>) -> Seq<usize> {
    if free.len() > 0 {
        free.remove(crate::pager::min_index(free))
    } else {
        free
    }
}

/// An allotment leaves a tree the tree it is, and hands out a page that
/// the tree does not hold.
pub proof fn lemma_allot_inv(store: Store, free: Seq<usize>, g: Shape)
    requires
        inv(store, free, g),
        forall|j: int| 0 <= j < free.len() ==> #[trigger] free[j] < store.len(),
        allot_store(store, free).len() <= u32::MAX,
    ensures
        ({
            let n = allot_page(store, free);
            let store2 = allot_store(store, free);
            let free2 = allot_free(free);
            &&& inv(store2, free2, g)
            &&& tree_entries(store2, g) == tree_entries(store, g)
            &&& 0 <= n < store2.len()
            &&& !g.pages.contains(n)
            &&& forall|j: int| 0 <= j < free2.len() ==> #[trigger] free2[j] != n
            &&& (g.level)(0) + g.leaves.len() + free2.len() + 1 <= store2.len()
            &&& forall|j: int| 0 <= j < free2.len() ==> #[trigger] free2[j] < store2.len()
        }),
{
    let n = allot_page(store, free);
    let store2 = allot_store(store, free);
    let free2 = allot_free(free);
    if free.len() > 0 {
        crate::pager::lemma_min_index(free);
        let k = crate::pager::min_index(free);
        assert forall|j: int| 0 <= j < free2.len() implies free.contains(#[trigger] free2[j]) by {
            if j < k {
                assert(free[j] == free2[j]);
            } else {
                assert(free[j + 1] == free2[j]);
            }
        }
        assert forall|j: int| 0 <= j < free2.len() implies #[trigger] free2[j] != n && free2[j]
            < store2.len() by {
            if j < k {
                assert(free[j] == free2[j]);
            } else {
                assert(free[j + 1] == free2[j]);
            }
        }
        if g.pages.contains(n) {
            assert(page_ok(store, free, g, n));
            assert(free[k] != n);
        }
    } else {
        if g.pages.contains(n) {
            assert(page_ok(store, free, g, n));
        }
    }
    assert forall|p: int| g.pages.contains(p) implies #[trigger] store2[p] == store[p] by {
        assert(page_ok(store, free, g, p));
    }
    crate::shape::lemma_inv_frame(store, free, g, store2, free2);
}

/// An allotment leaves a page that has split as it is, and hands out a
/// page that the tree does not hold.
pub proof fn lemma_allot_pending(
    store: Store,
    free: Seq<usize>,
    g: Shape,
    p: int,
    i: int,
    sep: usize,
    n: int,
)
    requires
        pending(store, free, g, p, i, sep, n),
        forall|j: int| 0 <= j < free.len() ==> #[trigger] free[j] < store.len(),
        allot_store(store, free).len() <= u32::MAX,
    ensures
        ({
            let m = allot_page(store, free);
            let store2 = allot_store(store, free);
            let free2 = allot_free(free);
            &&& pending(store2, free2, g, p, i, sep, n)
            &&& tree_entries(store2, g) == tree_entries(store, g)
            &&& 0 <= m < store2.len()
            &&& !g.pages.contains(m)
            &&& forall|j: int| 0 <= j < free2.len() ==> #[trigger] free2[j] != m
            &&& (g.level)(0) + g.leaves.len() + free2.len() + 1 <= store2.len()
            &&& forall|j: int| 0 <= j < free2.len() ==> #[trigger] free2[j] < store2.len()
        }),
{
    let m = allot_page(store, free);
    let store2 = allot_store(store, free);
    let free2 = allot_free(free);
    let par = (g.parent)(p);
    if free.len() > 0 {
        crate::pager::lemma_min_index(free);
        let k = crate::pager::min_index(free);
        assert forall|j: int| 0 <= j < free2.len() implies free.contains(#[trigger] free2[j]) by {
            if j < k {
                assert(free[j] == free2[j]);
            } else {
                assert(free[j + 1] == free2[j]);
            }
        }
        assert forall|j: int| 0 <= j < free2.len() implies #[trigger] free2[j] != m && free2[j]
            < store2.len() by {
            if j < k {
                assert(free[j] == free2[j]);
            } else {
                assert(free[j + 1] == free2[j]);
            }
        }
        if g.pages.contains(m) {
            if p != 0 && m == par {
                assert(free[k] != par);
            } else {
                assert(page_ok(store, free, g, m));
                assert(free[k] != m);
            }
        }
    } else {
        if g.pages.contains(m) {
            if p != 0 && m == par {
            } else {
                assert(page_ok(store, free, g, m));
            }
        }
    }
    lemma_pending_frame(store, free, g, p, i, sep, n, store2, free2);
}

/// A page that has split stays so whatever parent the page that split off
/// it records.
pub proof fn lemma_pending_reparent(
    store: Store,
    free: Seq<usize>,
    g: Shape,
    p: int,
    i: int,
    sep: usize,
    n: int,
    t: NodeView,
)
    requires
        pending(store, free, g, p, i, sep, n),
        t == (NodeView { parent_offset: t.parent_offset, ..store[n]->0 }),
    ensures
        pending(store.update(n, Some(t)), free, g, p, i, sep, n),
        tree_entries(store.update(n, Some(t)), g) == tree_entries(store, g),
{
    let store2 = store.update(n, Some(t));
    let par = (g.parent)(p);
    assert(page_ok(store, free, g, n));
    assert(page_ok(store, free, g, p));
    assert forall|q: int|
        g.pages.contains(q) && (p == 0 || q != par) implies #[trigger] page_ok(store2, free, g, q) by {
        assert(page_ok(store, free, g, q));
        if q == n {
            lemma_same_content_ok(g, n, store[n]->0, t);
        }
    }
    assert forall|k: int| 0 <= k < g.leaves.len() implies #[trigger] link_ok(store2, g, k) by {
        assert(link_ok(store, g, k));
        assert(page_ok(store, free, g, g.leaves[k]));
    }
    assert forall|k: int| 0 <= k < g.leaves.len() implies leaf_entries(
        store[#[trigger] g.leaves[k]]->0,
    ) == leaf_entries(store2[g.leaves[k]]->0) by {
        assert(link_ok(store, g, k));
        assert(page_ok(store, free, g, g.leaves[k]));
    }
    lemma_entries_upto_same(store, g.leaves, store2, g.leaves, g.leaves.len());
    if p != 0 {
        assert(store2[par] == store[par]);
    }
}

/// Whether a leaf splits on taking up `key`: it is full and lacks the key.
pub open spec fn leaf_splits(v: NodeView, key: usize) -> bool {
    v.keys.len() >= MAX_LEAF_NODES && !has_key(v.keys, key)
}

/// The child of an internal node to which an insert of `key` is routed: the
/// one before the first separator that is not below `key`.
pub open spec fn route_child(v: NodeView, key: usize) -> int {
    v.children[rank(v.keys, key) as int].0 as int
}

/// Whether the page `p` splits when `key` is inserted below it: a leaf that
/// splits, or a full internal node whose child on the way splits. `fuel`
/// bounds the way down.
pub open spec fn will_split(store: Store, p: int, key: usize, fuel: nat) -> bool
    decreases fuel,
{
    if !(0 <= p < store.len()) || store[p] is None {
        false
    } else if store[p]->0.is_leaf {
        leaf_splits(store[p]->0, key)
    } else if fuel == 0 {
        false
    } else {
        store[p]->0.keys.len() >= MAX_INTERNAL_NODES && will_split(
            store,
            route_child(store[p]->0, key),
            key,
            (fuel - 1) as nat,
        )
    }
}

/// How many pages from `p` down split when `key` is inserted below `p`.
pub open spec fn splits_below(store: Store, p: int, key: usize, fuel: nat) -> nat
    decreases fuel,
{
    if !(0 <= p < store.len()) || store[p] is None {
        0
    } else if store[p]->0.is_leaf {
        if leaf_splits(store[p]->0, key) {
            1
        } else {
            0
        }
    } else if fuel == 0 {
        0
    } else {
        splits_below(store, route_child(store[p]->0, key), key, (fuel - 1) as nat) + if will_split(
            store,
            p,
            key,
            fuel,
        ) {
            1nat
        } else {
            0nat
        }
    }
}

/// How many pages an insert of `key` allots: one for each page that splits,
/// and one more where the root splits.
pub open spec fn pages_for(store: Store, key: usize, fuel: nat) -> nat {
    splits_below(store, 0, key, fuel) + if will_split(store, 0, key, fuel) {
        1nat
    } else {
        0nat
    }
}

/// What holds where an insert of `key` into a tree has come down to the
/// page `p`, child `slot` of its parent: `p` covers the key, the table
/// lacks it, and `room` pages are left for the pages that will split.
pub open spec fn can_descend(
    store: Store,
    free: Seq<usize>,
    g: Shape,
    p: int,
    slot: int,
    key: usize,
    fuel: nat,
    room: nat,
) -> bool {
    &&& inv(store, free, g)
    &&& g.pages.contains(p)
    &&& (g.lo)(p) <= key < (g.hi)(p)
    &&& !has_key(entry_keys(tree_entries(store, g)), key)
    &&& fuel >= (g.level)(p)
    &&& room >= splits_below(store, p, key, (g.level)(p))
    &&& forall|j: int| 0 <= j < free.len() ==> #[trigger] free[j] < store.len()
    &&& p != 0 ==> {
        let par = (g.parent)(p);
        &&& g.pages.contains(par)
        &&& (g.level)(par) == (g.level)(p) + 1
        &&& 0 <= slot < store[par]->0.children.len()
        &&& store[par]->0.children[slot].0 == p
        &&& !store[par]->0.is_leaf
    }
}

/// The pages above the page `p` are as they were, in the store and in the
/// layout, and `p` has the parent and the level it had.
pub open spec fn above_kept(store: Store, g: Shape, p: int, store2: Store, g2: Shape) -> bool {
    &&& forall|q: int| g.pages.contains(q) ==> #[trigger] g2.pages.contains(q)
    &&& (g2.parent)(p) == (g.parent)(p)
    &&& (g2.level)(p) == (g.level)(p)
    &&& forall|q: int|
        g.pages.contains(q) && (g.level)(q) > (g.level)(p) ==> #[trigger] store2[q] == store[q]
    &&& forall|q: int|
        g.pages.contains(q) && (g.level)(q) > (g.level)(p) ==> #[trigger] (g2.parent)(q) == (
        g.parent)(q)
    &&& forall|q: int|
        g.pages.contains(q) && (g.level)(q) > (g.level)(p) ==> #[trigger] (g2.level)(q) == (
        g.level)(q)
}

/// The table with one more entry at its place in key order.
pub open spec fn with_entry(entries: Seq<(usize, RowView)>, key: usize, row: RowView) -> Seq<
    (usize, RowView),
> {
    entries.insert(rank(entry_keys(entries), key) as int, (key, row))
}

/// An insert below the page `p` has ended without splitting `p`: the store
/// holds a tree again, of the same height, whose table has the new entry.
pub open spec fn descended(
    store: Store,
    free: Seq<usize>,
    g: Shape,
    p: int,
    key: usize,
    row: RowView,
    room: nat,
    store2: Store,
    free2: Seq<usize>,
    g2: Shape,
    room2: nat,
) -> bool {
    &&& inv(store2, free2, g2)
    &&& tree_entries(store2, g2) == with_entry(tree_entries(store, g), key, row)
    &&& (g2.level)(0) == (g.level)(0)
    &&& !will_split(store, p, key, (g.level)(p))
    &&& room2 + splits_below(store, p, key, (g.level)(p)) == room
    &&& above_kept(store, g, p, store2, g2)
    &&& forall|j: int| 0 <= j < free2.len() ==> #[trigger] free2[j] < store2.len()
}

/// An insert below the page `p` has ended with `p` split: the upper half
/// is the page `n`, which starts at `sep`, and the parent of `p` has yet to
/// take them up.
pub open spec fn descended_split(
    store: Store,
    free: Seq<usize>,
    g: Shape,
    p: int,
    slot: int,
    key: usize,
    row: RowView,
    room: nat,
    store2: Store,
    free2: Seq<usize>,
    g2: Shape,
    room2: nat,
    sep: usize,
    n: int,
) -> bool {
    &&& pending(store2, free2, g2, p, slot, sep, n)
    &&& tree_entries(store2, g2) == with_entry(tree_entries(store, g), key, row)
    &&& (g2.level)(0) == (g.level)(0)
    &&& will_split(store, p, key, (g.level)(p))
    &&& room2 + splits_below(store, p, key, (g.level)(p)) == room
    &&& above_kept(store, g, p, store2, g2)
    &&& forall|j: int| 0 <= j < free2.len() ==> #[trigger] free2[j] < store2.len()
}

/// An insert that has come down to a leaf with room for a cell ends there.
pub proof fn lemma_descend_leaf_success(
    store: Store,
    free: Seq<usize>,
    g: Shape,
    p: int,
    slot: int,
    key: usize,
    row: RowView,
    fuel: nat,
    room: nat,
)
    requires
        can_descend(store, free, g, p, slot, key, fuel, room),
        store[p]->0.is_leaf,
        store[p]->0.keys.len() < MAX_LEAF_NODES,
    ensures
        descended(
            store,
            free,
            g,
            p,
            key,
            row,
            room,
            store.update(p, Some(with_cell(store[p]->0, key, row))),
            free,
            g,
            room,
        ),
        !has_key(store[p]->0.keys, key),
{
    assert(page_ok(store, free, g, p));
    lemma_leaf_rank(store, free, g, p, key);
    lemma_leaf_gains(store, free, g, p, key, row);
    let store2 = store.update(p, Some(with_cell(store[p]->0, key, row)));
    assert((g.level)(p) == 0);
    assert(!will_split(store, p, key, 0));
    assert(splits_below(store, p, key, 0) == 0);
    assert forall|q: int| g.pages.contains(q) && (g.level)(q) > (g.level)(p) implies #[trigger] store2[q]
        == store[q] by {
        assert(page_ok(store, free, g, q));
    }
}

/// An insert that has come down to a full leaf splits it.
pub proof fn lemma_descend_leaf_split(
    store: Store,
    free: Seq<usize>,
    g: Shape,
    p: int,
    slot: int,
    key: usize,
    row: RowView,
    fuel: nat,
    room: nat,
    right: NodeView,
)
    requires
        can_descend(store, free, g, p, slot, key, fuel, room),
        store[p]->0.is_leaf,
        store[p]->0.keys.len() == MAX_LEAF_NODES,
        allot_store(store, free).len() <= u32::MAX,
        is_upper_leaf(store[p]->0, key, row, p, allot_page(store, free), right),
    ensures
        room >= 1,
        descended_split(
            store,
            free,
            g,
            p,
            slot,
            key,
            row,
            room,
            split_leaf_store(allot_store(store, free), p, key, row, allot_page(store, free), right),
            allot_free(free),
            split_leaf_shape(g, p, allot_page(store, free), leaf_separator(store[p]->0, key, row)),
            (room - 1) as nat,
            leaf_separator(store[p]->0, key, row),
            allot_page(store, free),
        ),
{
    let n = allot_page(store, free);
    let store_a = allot_store(store, free);
    let free_a = allot_free(free);
    assert(page_ok(store, free, g, p));
    lemma_leaf_rank(store, free, g, p, key);
    lemma_allot_inv(store, free, g);
    assert(store_a[p] == store[p]);
    if p != 0 {
        let par = (g.parent)(p);
        assert(page_ok(store, free, g, par));
        assert(store_a[par] == store[par]);
    }
    lemma_leaf_rank(store_a, free_a, g, p, key);
    assert(leaf_split_ready(store_a, free_a, g, p, slot, key, n));
    lemma_leaf_split(store_a, free_a, g, p, slot, key, row, n, right);
    lemma_split_leaf_store(store_a, free_a, g, p, slot, key, row, n, right);
    let store2 = split_leaf_store(store_a, p, key, row, n, right);
    let g2 = split_leaf_shape(g, p, n, leaf_separator(store[p]->0, key, row));
    lemma_leaf_ranges(store, free, g);
    assert((g.level)(p) == 0);
    assert(will_split(store, p, key, 0));
    assert(splits_below(store, p, key, 0) == 1);
    assert forall|q: int| g.pages.contains(q) && (g.level)(q) > (g.level)(p) implies #[trigger] store2[q]
        == store[q] by {
        assert(page_ok(store, free, g, q));
        let k = (g.pos)(p);
        if k + 1 < g.leaves.len() {
            assert(link_ok(store, g, k + 1));
        }
        assert(store2[q] == store_a[q]);
    }
    assert forall|q: int| g.pages.contains(q) implies #[trigger] g2.pages.contains(q) by {}
    assert forall|j: int| 0 <= j < free_a.len() implies #[trigger] free_a[j] < store2.len() by {}
}

/// What an insert that has come down to an internal page does next: it
/// goes on to the child that covers the key.
pub proof fn lemma_descend_step(
    store: Store,
    free: Seq<usize>,
    g: Shape,
    p: int,
    slot: int,
    key: usize,
    fuel: nat,
    room: nat,
)
    requires
        can_descend(store, free, g, p, slot, key, fuel, room),
        !store[p]->0.is_leaf,
    ensures
        ({
            let v = store[p]->0;
            let idx = rank(v.keys, key) as int;
            let c = route_child(v, key);
            &&& 0 <= p < store.len()
            &&& store[p] is Some
            &&& 0 <= idx < v.children.len()
            &&& v.keys.len() <= MAX_INTERNAL_NODES
            &&& fuel > 0
            &&& (g.level)(p) > 0
            &&& can_descend(store, free, g, c, idx, key, (fuel - 1) as nat, room)
            &&& (g.parent)(c) == p
            &&& (g.level)(c) + 1 == (g.level)(p)
            &&& c != p
            &&& c != 0
            &&& g.pages.contains(c)
            &&& will_split(store, p, key, (g.level)(p)) == (v.keys.len() >= MAX_INTERNAL_NODES
                && will_split(store, c, key, (g.level)(c)))
            &&& splits_below(store, p, key, (g.level)(p)) == splits_below(
                store,
                c,
                key,
                (g.level)(c),
            ) + if will_split(store, p, key, (g.level)(p)) {
                1nat
            } else {
                0nat
            }
        }),
{
    assert(page_ok(store, free, g, p));
    lemma_route(store, free, g, p, key);
    let v = store[p]->0;
    let c = route_child(v, key);
    assert(page_ok(store, free, g, c));
}

/// An insert that ended below a child without splitting it ended below the
/// parent too.
pub proof fn lemma_ascend_success(
    store: Store,
    free: Seq<usize>,
    g: Shape,
    p: int,
    slot: int,
    key: usize,
    row: RowView,
    fuel: nat,
    room: nat,
    store2: Store,
    free2: Seq<usize>,
    g2: Shape,
    room2: nat,
)
    requires
        can_descend(store, free, g, p, slot, key, fuel, room),
        !store[p]->0.is_leaf,
        descended(
            store,
            free,
            g,
            route_child(store[p]->0, key),
            key,
            row,
            room,
            store2,
            free2,
            g2,
            room2,
        ),
    ensures
        descended(store, free, g, p, key, row, room, store2, free2, g2, room2),
{
    lemma_descend_step(store, free, g, p, slot, key, fuel, room);
}

/// The parent of a page that split takes up the separator and the new page
/// without splitting: the insert has ended.
pub proof fn lemma_ascend_absorb(
    store: Store,
    free: Seq<usize>,
    g: Shape,
    p: int,
    slot: int,
    key: usize,
    row: RowView,
    fuel: nat,
    room: nat,
    store2: Store,
    free2: Seq<usize>,
    g2: Shape,
    room2: nat,
    sep: usize,
    n: int,
    t: NodeView,
    w: NodeView,
)
    requires
        can_descend(store, free, g, p, slot, key, fuel, room),
        !store[p]->0.is_leaf,
        descended_split(
            store,
            free,
            g,
            route_child(store[p]->0, key),
            rank(store[p]->0.keys, key) as int,
            key,
            row,
            room,
            store2,
            free2,
            g2,
            room2,
            sep,
            n,
        ),
        store2[p]->0.keys.len() < MAX_INTERNAL_NODES,
        t == (NodeView { parent_offset: t.parent_offset, ..store2[n]->0 }),
        same_content(w, absorb(store2[p]->0, rank(store[p]->0.keys, key) as int, sep, n)),
    ensures
        descended(
            store,
            free,
            g,
            p,
            key,
            row,
            room,
            store2.update(n, Some(t)).update(p, Some(w)),
            free2,
            g2,
            room2,
        ),
{
    lemma_descend_step(store, free, g, p, slot, key, fuel, room);
    let c = route_child(store[p]->0, key);
    let idx = rank(store[p]->0.keys, key) as int;
    assert((g2.parent)(c) == p);
    assert(gap_ok(store2, free2, g2, p, idx, sep, n));
    assert(page_ok(store, free, g, p));
    assert(store2[p] == store[p]);
    assert(page_ok(store2, free2, g2, n));
    lemma_pending_reparent(store2, free2, g2, c, idx, sep, n, t);
    let s3 = store2.update(n, Some(t));
    assert(s3[p] == store2[p]);
    lemma_absorbed(s3, free2, g2, c, idx, sep, n, w);
    let s4 = s3.update(p, Some(w));
    assert(page_ok(store2, free2, g2, n));
    assert forall|q: int| g.pages.contains(q) && (g.level)(q) > (g.level)(p) implies #[trigger] s4[q]
        == store[q] by {
        assert(g2.pages.contains(q));
        assert((g2.level)(q) == (g.level)(q));
        assert(q != n);
        assert(q != p);
        assert(page_ok(store2, free2, g2, q));
        assert(store2[q] == store[q]);
    }
    assert forall|q: int| g.pages.contains(q) && (g.level)(q) > (g.level)(p) implies #[trigger] (
    g2.parent)(q) == (g.parent)(q) by {}
    assert forall|q: int| g.pages.contains(q) && (g.level)(q) > (g.level)(p) implies #[trigger] (
    g2.level)(q) == (g.level)(q) by {}
    assert(!will_split(store, p, key, (g.level)(p)));
}

/// The parent of a page that split splits itself on taking up the
/// separator and the new page: the insert goes on one level up.
pub proof fn lemma_ascend_split(
    store: Store,
    free: Seq<usize>,
    g: Shape,
    p: int,
    slot: int,
    key: usize,
    row: RowView,
    fuel: nat,
    room: nat,
    store2: Store,
    free2: Seq<usize>,
    g2: Shape,
    room2: nat,
    sep: usize,
    n: int,
    t: NodeView,
    wl: NodeView,
    wu: NodeView,
)
    requires
        can_descend(store, free, g, p, slot, key, fuel, room),
        !store[p]->0.is_leaf,
        descended_split(
            store,
            free,
            g,
            route_child(store[p]->0, key),
            rank(store[p]->0.keys, key) as int,
            key,
            row,
            room,
            store2,
            free2,
            g2,
            room2,
            sep,
            n,
        ),
        store2[p]->0.keys.len() == MAX_INTERNAL_NODES,
        t == (NodeView { parent_offset: t.parent_offset, ..store2[n]->0 }),
        allot_store(store2, free2).len() <= u32::MAX,
        is_inner_halves(
            absorb(store2[p]->0, rank(store[p]->0.keys, key) as int, sep, n),
            p,
            allot_page(store2, free2),
            wl,
            wu,
        ),
    ensures
        room2 >= 1,
        ({
            let a = absorb(store2[p]->0, rank(store[p]->0.keys, key) as int, sep, n);
            let promoted = a.keys[internal_split_point(a.keys.len() as int)];
            let m = allot_page(store2, free2);
            descended_split(
                store,
                free,
                g,
                p,
                slot,
                key,
                row,
                room,
                allot_store(store2.update(n, Some(t)), free2).update(p, Some(wl)).update(
                    m,
                    Some(wu),
                ),
                allot_free(free2),
                split_inner_shape(g2, p, m, promoted),
                (room2 - 1) as nat,
                promoted,
                m,
            )
        }),
{
    lemma_descend_step(store, free, g, p, slot, key, fuel, room);
    let c = route_child(store[p]->0, key);
    let idx = rank(store[p]->0.keys, key) as int;
    assert((g2.parent)(c) == p);
    assert(gap_ok(store2, free2, g2, p, idx, sep, n));
    assert(page_ok(store, free, g, p));
    assert(store2[p] == store[p]);
    assert(page_ok(store2, free2, g2, n));
    lemma_pending_reparent(store2, free2, g2, c, idx, sep, n, t);
    let s3 = store2.update(n, Some(t));
    assert(s3[p] == store2[p]);
    assert(allot_page(s3, free2) == allot_page(store2, free2));
    lemma_allot_pending(s3, free2, g2, c, idx, sep, n);
    let m = allot_page(s3, free2);
    let s4 = allot_store(s3, free2);
    let free4 = allot_free(free2);
    assert(s4[p] == s3[p]);
    assert(page_ok(store2, free2, g2, n));
    if p != 0 {
        let pp = (g.parent)(p);
        assert(page_ok(store, free, g, pp));
        assert(g2.pages.contains(pp));
        assert((g2.level)(pp) == (g.level)(pp));
        assert((g2.parent)(p) == pp);
        assert(pp != n);
        assert(pp != p);
        assert(page_ok(store2, free2, g2, pp));
        assert(store2[pp] == store[pp]);
        assert(s3[pp] == store2[pp]);
        assert(s4[pp] == store[pp]);
    }
    assert(inner_split_ready(s4, free4, g2, c, idx, sep, n, slot, m));
    lemma_inner_split(s4, free4, g2, c, idx, sep, n, slot, m, wl, wu);
    let a = absorb(store2[p]->0, idx, sep, n);
    let promoted = a.keys[internal_split_point(a.keys.len() as int)];
    let g3 = split_inner_shape(g2, p, m, promoted);
    let s5 = s4.update(p, Some(wl)).update(m, Some(wu));
    assert forall|q: int| g.pages.contains(q) && (g.level)(q) > (g.level)(p) implies #[trigger] s5[q]
        == store[q] by {
        assert(g2.pages.contains(q));
        assert((g2.level)(q) == (g.level)(q));
        assert(q != n);
        assert(q != p);
        assert(q != m);
        assert(page_ok(store2, free2, g2, q));
        assert(store2[q] == store[q]);
        assert(s3[q] == store2[q]);
        assert(s4[q] == s3[q]);
    }
    assert forall|q: int| g.pages.contains(q) && (g.level)(q) > (g.level)(p) implies #[trigger] (
    g3.parent)(q) == (g.parent)(q) by {
        assert((g2.parent)(q) == (g.parent)(q));
        assert((g2.level)(q) == (g.level)(q));
        assert(g2.pages.contains(q));
    }
    assert forall|q: int| g.pages.contains(q) && (g.level)(q) > (g.level)(p) implies #[trigger] (
    g3.level)(q) == (g.level)(q) by {
        assert((g2.level)(q) == (g.level)(q));
        assert(g2.pages.contains(q));
    }
    assert forall|q: int| g.pages.contains(q) implies #[trigger] g3.pages.contains(q) by {
        assert(g2.pages.contains(q));
    }
}

/// The root of a tree split on an insert and is replaced: the store holds a
/// tree again, one level higher, whose table has the new entry.
pub proof fn lemma_top_grow(
    store: Store,
    free: Seq<usize>,
    g: Shape,
    slot: int,
    key: usize,
    row: RowView,
    room: nat,
    store2: Store,
    free2: Seq<usize>,
    g2: Shape,
    room2: nat,
    sep: usize,
    n: int,
    wr: NodeView,
    wn: NodeView,
    w0: NodeView,
)
    requires
        descended_split(store, free, g, 0, slot, key, row, room, store2, free2, g2, room2, sep, n),
        allot_store(store2, free2).len() <= u32::MAX,
        is_grown(allot_store(store2, free2), sep, n, allot_page(store2, free2), wr, wn, w0),
    ensures
        ({
            let r = allot_page(store2, free2);
            let s3 = allot_store(store2, free2).update(r, Some(wr)).update(n, Some(wn)).update(
                0,
                Some(w0),
            );
            let g3 = grow_shape(g2, r, n);
            &&& inv(s3, allot_free(free2), g3)
            &&& tree_entries(s3, g3) == with_entry(tree_entries(store, g), key, row)
            &&& (g3.level)(0) == (g.level)(0) + 1
        }),
{
    lemma_allot_pending(store2, free2, g2, 0, slot, sep, n);
    let r = allot_page(store2, free2);
    let s_a = allot_store(store2, free2);
    let free_a = allot_free(free2);
    assert(grow_ready(s_a, free_a, g2, slot, sep, n, r));
    lemma_grown(s_a, free_a, g2, slot, sep, n, r, wr, wn, w0);
}

/// In a tree whose root has split, the root and the page that split off it
/// are both leaves or both internal nodes.
pub proof fn lemma_split_root_kind(
    store: Store,
    free: Seq<usize>,
    g: Shape,
    slot: int,
    sep: usize,
    n: int,
)
    requires
        pending(store, free, g, 0, slot, sep, n),
    ensures
        0 < n < store.len(),
        store.len() >= 1,
        store[0] is Some,
        store[n] is Some,
        store[0]->0.is_leaf == store[n]->0.is_leaf,
{
    assert(page_ok(store, free, g, 0));
    assert(page_ok(store, free, g, n));
}

/// A table that takes up an entry under a key it lacks holds that key and
/// the keys it held, each once, in strictly ascending order; the entries
/// before the new one and behind it are the ones it held.
pub proof fn lemma_with_entry(entries: Seq<(usize, RowView)>, key: usize, row: RowView)
    requires
        strictly_ascending(entry_keys(entries)),
        !has_key(entry_keys(entries), key),
    ensures
        ({
            let at = rank(entry_keys(entries), key) as int;
            let after = with_entry(entries, key, row);
            &&& 0 <= at <= entries.len()
            &&& after.len() == entries.len() + 1
            &&& after[at] == (key, row)
            &&& forall|i: int| 0 <= i < at ==> after[i] == entries[i]
            &&& forall|i: int| at < i < after.len() ==> after[i] == entries[i - 1]
            &&& entry_keys(after) == entry_keys(entries).insert(at, key)
            &&& strictly_ascending(entry_keys(after))
            &&& forall|x: usize|
                has_key(entry_keys(after), x) <==> x == key || has_key(entry_keys(entries), x)
        }),
{
    let keys = entry_keys(entries);
    let at = rank(keys, key) as int;
    let after = with_entry(entries, key, row);
    lemma_rank_splits(keys, key);
    lemma_insert_key_keeps_order(keys, at, key);
    assert(entry_keys(after) =~= keys.insert(at, key));
    assert forall|x: usize| has_key(entry_keys(after), x) <==> x == key || has_key(keys, x) by {
        if has_key(entry_keys(after), x) {
            let i = choose|i: int| 0 <= i < entry_keys(after).len() && entry_keys(after)[i] == x;
            if i < at {
                assert(keys[i] == x);
            } else if i > at {
                assert(keys[i - 1] == x);
            }
        }
        if x == key {
            assert(entry_keys(after)[at] == x);
        }
        if has_key(keys, x) {
            let i = choose|i: int| 0 <= i < keys.len() && keys[i] == x;
            if i < at {
                assert(entry_keys(after)[i] == x);
            } else {
                assert(entry_keys(after)[i + 1] == x);
            }
        }
    }
}

} // verus!
