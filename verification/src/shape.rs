//! What it means for the pages of a pager to hold a B+-tree: the layout of
//! a tree, the conditions that tie each page to it, and the table that the
//! leaves hold.

use vstd::prelude::*;
use crate::datastore::RowView;
use crate::node::{MAX_INTERNAL_NODES, MAX_LEAF_NODES, NodeView};
use crate::pager::Offset;
use crate::search::{has_key, lemma_rank_splits, lemma_rank_unique, rank, strictly_ascending};

verus! {

/// The node at each page offset, where there is one.
pub type Store = Seq<Option<NodeView>>;

/// One more than the largest key a table holds.
pub open spec fn key_ceiling() -> int {
    0x1_0000_0000
}

/// The layout of a tree over a store: which pages belong to it, how high
/// each stands above the leaves, the keys `lo <= k < hi` that each covers,
/// each page's parent, and the leaves from left to right with each leaf's
/// place among them.
pub struct Shape {
    pub pages: Set<int>,
    pub level: spec_fn(int) -> nat,
    pub lo: spec_fn(int) -> int,
    pub hi: spec_fn(int) -> int,
    pub parent: spec_fn(int) -> int,
    pub pos: spec_fn(int) -> int,
    pub leaves: Seq<int>,
}

/// Child `i` of the internal node `v` at page `p` is a page of the tree one
/// level down, has `p` for its parent, and covers the keys between the
/// separators on its two sides.
pub open spec fn child_ok(g: Shape, p: int, v: NodeView, i: int) -> bool {
    let c = v.children[i].0 as int;
    &&& g.pages.contains(c)
    &&& c != 0
    &&& (g.level)(c) + 1 == (g.level)(p)
    &&& (g.parent)(c) == p
    &&& (g.lo)(c) == (if i == 0 {
        (g.lo)(p)
    } else {
        v.keys[i - 1] as int
    })
    &&& (g.hi)(c) == (if i == v.keys.len() {
        (g.hi)(p)
    } else {
        v.keys[i] as int
    })
}

/// A leaf holds at most `MAX_LEAF_NODES` cells, at least one unless it is
/// the root, all within the keys it covers; it has its place among the
/// leaves, and every leaf but the first starts with the least key it covers.
pub open spec fn leaf_ok(g: Shape, p: int, v: NodeView) -> bool {
    &&& v.keys.len() <= MAX_LEAF_NODES
    &&& v.rows.len() == v.keys.len()
    &&& p != 0 ==> v.keys.len() >= 1
    &&& forall|i: int| 0 <= i < v.keys.len() ==> (g.lo)(p) <= #[trigger] v.keys[i] < (g.hi)(p)
    &&& 0 <= (g.pos)(p) < g.leaves.len()
    &&& g.leaves[(g.pos)(p)] == p
    &&& (g.pos)(p) > 0 ==> v.keys.len() >= 1 && v.keys[0] == (g.lo)(p)
}

/// An internal node holds at least one separator, all strictly inside the
/// keys it covers, and one child more, each as `child_ok` says.
pub open spec fn inner_ok(g: Shape, p: int, v: NodeView) -> bool {
    &&& 1 <= v.keys.len()
    &&& v.rows.len() == 0
    &&& v.children.len() == v.keys.len() + 1
    &&& forall|i: int| 0 <= i < v.keys.len() ==> (g.lo)(p) < #[trigger] v.keys[i] < (g.hi)(p)
    &&& forall|i: int| 0 <= i < v.children.len() ==> #[trigger] child_ok(g, p, v, i)
}

/// The node `v` at page `p` agrees with the layout, but for the number of
/// separators that an internal node may hold.
pub open spec fn node_ok_wide(g: Shape, p: int, v: NodeView) -> bool {
    &&& v.offset == Offset(p as usize)
    &&& v.is_root == (p == 0)
    &&& 0 <= (g.lo)(p) < (g.hi)(p) <= key_ceiling()
    &&& strictly_ascending(v.keys)
    &&& v.is_leaf == ((g.level)(p) == 0)
    &&& if v.is_leaf {
        leaf_ok(g, p, v)
    } else {
        inner_ok(g, p, v)
    }
}

/// The node `v` at page `p` agrees with the layout.
pub open spec fn node_ok(g: Shape, p: int, v: NodeView) -> bool {
    &&& node_ok_wide(g, p, v)
    &&& !v.is_leaf ==> v.keys.len() <= MAX_INTERNAL_NODES
}

/// Page `p` is allotted, holds a node that agrees with the layout, and is
/// not among the recycled offsets.
pub open spec fn page_ok(store: Store, free: Seq<usize>, g: Shape, p: int) -> bool {
    &&& 0 <= p < store.len()
    &&& store[p] is Some
    &&& node_ok(g, p, store[p]->0)
    &&& forall|j: int| 0 <= j < free.len() ==> #[trigger] free[j] != p
}

/// Leaf `k` is a leaf page of the tree in its place, linked to the leaves
/// on its two sides, and covers the keys up to where the next leaf starts.
pub open spec fn link_ok(store: Store, g: Shape, k: int) -> bool {
    let p = g.leaves[k];
    let v = store[p]->0;
    &&& g.pages.contains(p)
    &&& (g.level)(p) == 0
    &&& (g.pos)(p) == k
    &&& v.prev_leaf == (if k == 0 {
        None
    } else {
        Some(Offset(g.leaves[k - 1] as usize))
    })
    &&& v.next_leaf == (if k + 1 == g.leaves.len() {
        None
    } else {
        Some(Offset(g.leaves[k + 1] as usize))
    })
    &&& k + 1 < g.leaves.len() ==> (g.hi)(p) == (g.lo)(g.leaves[k + 1])
}

/// The leaves form one chain that covers all keys.
pub open spec fn chain_ok(store: Store, g: Shape) -> bool {
    &&& g.leaves.len() >= 1
    &&& forall|k: int| 0 <= k < g.leaves.len() ==> #[trigger] link_ok(store, g, k)
    &&& (g.lo)(g.leaves[0]) == 0
    &&& (g.hi)(g.leaves.last()) == key_ceiling()
}

/// The store holds a B+-tree of the layout `g`, rooted at page 0: each page
/// of the tree agrees with the layout, the leaves form one chain, and the
/// tree's height and leaves are fewer than the pages in use.
pub open spec fn inv(store: Store, free: Seq<usize>, g: Shape) -> bool {
    &&& g.pages.contains(0)
    &&& (g.lo)(0) == 0
    &&& (g.hi)(0) == key_ceiling()
    &&& forall|p: int| g.pages.contains(p) ==> #[trigger] page_ok(store, free, g, p)
    &&& chain_ok(store, g)
    &&& (g.level)(0) + g.leaves.len() + free.len() <= store.len()
    &&& store.len() <= u32::MAX
    &&& (g.parent)(0) == 0
    &&& forall|a: int, b: int| 0 <= a < b < free.len() ==> free[a] != free[b]
}

/// The cells of a leaf, as pairs of key and row.
pub open spec fn leaf_entries(v: NodeView) -> Seq<(usize, RowView)> {
    Seq::new(v.keys.len(), |i: int| (v.keys[i], v.rows[i]))
}

/// The cells of the first `n` leaves, in order.
pub open spec fn entries_upto(store: Store, leaves: Seq<int>, n: nat) -> Seq<(usize, RowView)>
    decreases n,
{
    if n == 0 {
        Seq::empty()
    } else {
        entries_upto(store, leaves, (n - 1) as nat) + leaf_entries(store[leaves[n - 1]]->0)
    }
}

/// How many cells the first `k` leaves hold.
pub open spec fn prefix_len(store: Store, leaves: Seq<int>, k: nat) -> nat
    decreases k,
{
    if k == 0 {
        0
    } else {
        prefix_len(store, leaves, (k - 1) as nat) + store[leaves[k - 1]]->0.keys.len()
    }
}

/// The keys of a run of entries, in order.
pub open spec fn entry_keys(entries: Seq<(usize, RowView)>) -> Seq<usize> {
    Seq::new(entries.len(), |i: int| entries[i].0)
}

/// The rows of a run of entries, in order.
pub open spec fn entry_rows(entries: Seq<(usize, RowView)>) -> Seq<RowView> {
    Seq::new(entries.len(), |i: int| entries[i].1)
}

/// The first `n` leaves hold as many entries as `prefix_len` counts.
pub proof fn lemma_entries_len(store: Store, leaves: Seq<int>, n: nat)
    ensures
        entries_upto(store, leaves, n).len() == prefix_len(store, leaves, n),
    decreases n,
{
    if n > 0 {
        lemma_entries_len(store, leaves, (n - 1) as nat);
    }
}

/// More leaves hold no fewer cells.
pub proof fn lemma_prefix_mono(store: Store, leaves: Seq<int>, a: nat, b: nat)
    requires
        a <= b,
    ensures
        prefix_len(store, leaves, a) <= prefix_len(store, leaves, b),
    decreases b,
{
    if a < b {
        lemma_prefix_mono(store, leaves, a, (b - 1) as nat);
    }
}

/// Cell `i` of leaf `k` is the entry at `prefix_len(k) + i`.
pub proof fn lemma_entries_index(store: Store, leaves: Seq<int>, n: nat, k: int, i: int)
    requires
        0 <= k < n,
        0 <= i < store[leaves[k]]->0.keys.len(),
    ensures
        prefix_len(store, leaves, k as nat) + i < prefix_len(store, leaves, n),
        entries_upto(store, leaves, n)[prefix_len(store, leaves, k as nat) + i] == (
            store[leaves[k]]->0.keys[i],
            store[leaves[k]]->0.rows[i],
        ),
    decreases n,
{
    lemma_entries_len(store, leaves, (n - 1) as nat);
    if k < n - 1 {
        lemma_entries_index(store, leaves, (n - 1) as nat, k, i);
    }
}

/// The entry at `x` is a cell of some leaf: returns the leaf and the cell.
pub proof fn lemma_entries_locate(store: Store, leaves: Seq<int>, n: nat, x: int) -> (r: (int, int))
    requires
        0 <= x < prefix_len(store, leaves, n),
    ensures
        0 <= r.0 < n,
        0 <= r.1 < store[leaves[r.0]]->0.keys.len(),
        x == prefix_len(store, leaves, r.0 as nat) + r.1,
    decreases n,
{
    if x < prefix_len(store, leaves, (n - 1) as nat) {
        lemma_entries_locate(store, leaves, (n - 1) as nat, x)
    } else {
        (n - 1, x - prefix_len(store, leaves, (n - 1) as nat))
    }
}

/// The keys that a leaf covers end where those of every later leaf start.
pub proof fn lemma_ranges_ascend(store: Store, g: Shape, a: int, b: int)
    requires
        chain_ok(store, g),
        0 <= a < b < g.leaves.len(),
        forall|k: int| 0 <= k < g.leaves.len() ==> (g.lo)(g.leaves[k]) < (g.hi)(#[trigger] g.leaves[k]),
    ensures
        (g.hi)(g.leaves[a]) <= (g.lo)(g.leaves[b]),
    decreases b - a,
{
    assert(link_ok(store, g, a));
    if a + 1 < b {
        lemma_ranges_ascend(store, g, a + 1, b);
        assert((g.lo)(g.leaves[a + 1]) < (g.hi)(g.leaves[a + 1]));
    }
}

/// In a tree every leaf covers some keys.
pub proof fn lemma_leaf_ranges(store: Store, free: Seq<usize>, g: Shape)
    requires
        inv(store, free, g),
    ensures
        forall|k: int| 0 <= k < g.leaves.len() ==> (g.lo)(g.leaves[k]) < (g.hi)(#[trigger] g.leaves[k]),
        forall|k: int|
            0 <= k < g.leaves.len() ==> {
                let p = #[trigger] g.leaves[k];
                &&& page_ok(store, free, g, p)
                &&& store[p]->0.is_leaf
                &&& (g.pos)(p) == k
            },
{
    assert forall|k: int| 0 <= k < g.leaves.len() implies {
        let p = #[trigger] g.leaves[k];
        &&& page_ok(store, free, g, p)
        &&& store[p]->0.is_leaf
        &&& (g.pos)(p) == k
        &&& (g.lo)(p) < (g.hi)(p)
    } by {
        assert(link_ok(store, g, k));
        assert(page_ok(store, free, g, g.leaves[k]));
    }
}

/// The entries of a tree ascend strictly by key.
pub proof fn lemma_entries_sorted(store: Store, free: Seq<usize>, g: Shape)
    requires
        inv(store, free, g),
    ensures
        strictly_ascending(entry_keys(entries_upto(store, g.leaves, g.leaves.len()))),
{
    let n = g.leaves.len();
    let all = entries_upto(store, g.leaves, n);
    let keys = entry_keys(all);
    lemma_entries_len(store, g.leaves, n);
    lemma_leaf_ranges(store, free, g);
    assert forall|x: int, y: int| 0 <= x < y < keys.len() implies keys[x] < keys[y] by {
        let (ka, ia) = lemma_entries_locate(store, g.leaves, n, x);
        let (kb, ib) = lemma_entries_locate(store, g.leaves, n, y);
        lemma_entries_index(store, g.leaves, n, ka, ia);
        lemma_entries_index(store, g.leaves, n, kb, ib);
        let pa = g.leaves[ka];
        let pb = g.leaves[kb];
        assert(page_ok(store, free, g, pa));
        assert(page_ok(store, free, g, pb));
        let va = store[pa]->0;
        let vb = store[pb]->0;
        if ka == kb {
        } else if ka < kb {
            lemma_ranges_ascend(store, g, ka, kb);
            assert(va.keys[ia] < (g.hi)(pa));
            assert((g.lo)(pb) <= vb.keys[ib]);
        } else {
            lemma_prefix_mono(store, g.leaves, (kb + 1) as nat, ka as nat);
        }
    }
}

/// Whether a store holds a tree of some layout.
pub open spec fn tree_in(store: Store, free: Seq<usize>) -> bool {
    exists|g: Shape| inv(store, free, g)
}

/// A layout of the tree that a store holds.
pub open spec fn layout_of(store: Store, free: Seq<usize>) -> Shape {
    choose|g: Shape| inv(store, free, g)
}

/// All entries of the tree of layout `g`, in leaf order.
pub open spec fn tree_entries(store: Store, g: Shape) -> Seq<(usize, RowView)> {
    entries_upto(store, g.leaves, g.leaves.len())
}

/// In the leaf that covers `key`, the key stands where it stands among all
/// entries, shifted by the cells of the leaves before.
pub proof fn lemma_leaf_rank(store: Store, free: Seq<usize>, g: Shape, p: int, key: usize)
    requires
        inv(store, free, g),
        g.pages.contains(p),
        (g.level)(p) == 0,
        (g.lo)(p) <= key < (g.hi)(p),
    ensures
        has_key(entry_keys(tree_entries(store, g)), key) == has_key(store[p]->0.keys, key),
        rank(entry_keys(tree_entries(store, g)), key) == prefix_len(
            store,
            g.leaves,
            (g.pos)(p) as nat,
        ) + rank(store[p]->0.keys, key),
        0 <= (g.pos)(p) < g.leaves.len(),
        g.leaves[(g.pos)(p)] == p,
{
    let n = g.leaves.len();
    let all = tree_entries(store, g);
    let keys = entry_keys(all);
    assert(page_ok(store, free, g, p));
    let v = store[p]->0;
    let kp = (g.pos)(p);
    let local = rank(v.keys, key) as int;
    let at = prefix_len(store, g.leaves, kp as nat) + local;
    lemma_entries_len(store, g.leaves, n);
    lemma_leaf_ranges(store, free, g);
    lemma_entries_sorted(store, free, g);
    lemma_rank_splits(v.keys, key);
    lemma_prefix_mono(store, g.leaves, (kp + 1) as nat, n);
    assert forall|x: int| 0 <= x < keys.len() implies (x < at ==> keys[x] < key) && (x >= at
        ==> keys[x] >= key) && (keys[x] == key ==> has_key(v.keys, key)) by {
        let (k, i) = lemma_entries_locate(store, g.leaves, n, x);
        lemma_entries_index(store, g.leaves, n, k, i);
        let q = g.leaves[k];
        assert(page_ok(store, free, g, q));
        let w = store[q]->0;
        assert((g.lo)(q) <= w.keys[i] < (g.hi)(q));
        if k < kp {
            lemma_ranges_ascend(store, g, k, kp);
            lemma_prefix_mono(store, g.leaves, (k + 1) as nat, kp as nat);
        } else if k > kp {
            lemma_ranges_ascend(store, g, kp, k);
            lemma_prefix_mono(store, g.leaves, (kp + 1) as nat, k as nat);
        } else {
            if keys[x] == key {
                assert(v.keys[i] == key);
            }
        }
    }
    lemma_rank_unique(keys, key, at);
    if has_key(v.keys, key) {
        let i = choose|i: int| 0 <= i < v.keys.len() && v.keys[i] == key;
        lemma_entries_index(store, g.leaves, n, kp, i);
        assert(keys[prefix_len(store, g.leaves, kp as nat) + i] == key);
    }
}

/// A root that is a leaf is the only leaf.
pub proof fn lemma_root_leaf_alone(store: Store, free: Seq<usize>, g: Shape)
    requires
        inv(store, free, g),
        (g.level)(0) == 0,
    ensures
        g.leaves =~= seq![0int],
        tree_entries(store, g) == leaf_entries(store[0]->0),
{
    lemma_leaf_ranges(store, free, g);
    assert(page_ok(store, free, g, 0));
    let k = (g.pos)(0);
    if k > 0 {
        lemma_ranges_ascend(store, g, 0, k);
        assert((g.lo)(g.leaves[0]) < (g.hi)(g.leaves[0]));
    }
    if g.leaves.len() > 1 {
        assert(link_ok(store, g, 0));
        assert((g.lo)(g.leaves[1]) < (g.hi)(g.leaves[1]));
        if g.leaves.len() > 2 {
            lemma_ranges_ascend(store, g, 1, g.leaves.len() - 1);
        }
        assert((g.lo)(g.leaves[g.leaves.len() - 1]) < (g.hi)(g.leaves[g.leaves.len() - 1]));
    }
    assert(entries_upto(store, g.leaves, 0) =~= Seq::empty());
    assert(entries_upto(store, g.leaves, 1) =~= leaf_entries(store[0]->0));
}

/// A tree without entries is an empty root leaf, and the other way round.
pub proof fn lemma_empty_tree(store: Store, free: Seq<usize>, g: Shape)
    requires
        inv(store, free, g),
    ensures
        (tree_entries(store, g).len() == 0) == (store[0]->0.is_leaf && store[0]->0.keys.len() == 0),
{
    assert(page_ok(store, free, g, 0));
    lemma_leaf_ranges(store, free, g);
    if store[0]->0.is_leaf {
        lemma_root_leaf_alone(store, free, g);
    } else {
        let p = g.leaves[0];
        assert(page_ok(store, free, g, p));
        assert(link_ok(store, g, 0));
        lemma_entries_index(store, g.leaves, g.leaves.len(), 0, 0);
        lemma_entries_len(store, g.leaves, g.leaves.len());
    }
}

/// The leaf that covers key 0 is the first leaf.
pub proof fn lemma_first_leaf(store: Store, free: Seq<usize>, g: Shape, p: int)
    requires
        inv(store, free, g),
        g.pages.contains(p),
        (g.level)(p) == 0,
        (g.lo)(p) == 0,
    ensures
        (g.pos)(p) == 0,
        g.leaves[0] == p,
{
    lemma_leaf_ranges(store, free, g);
    assert(page_ok(store, free, g, p));
    let k = (g.pos)(p);
    if k > 0 {
        lemma_ranges_ascend(store, g, 0, k);
        assert((g.lo)(g.leaves[0]) < (g.hi)(g.leaves[0]));
    }
}

/// A place in a leaf is the end of all entries exactly when the leaf is the
/// last one and the place is behind its last cell.
pub proof fn lemma_index_end(store: Store, free: Seq<usize>, g: Shape, p: int, i: int)
    requires
        inv(store, free, g),
        g.pages.contains(p),
        (g.level)(p) == 0,
        0 <= i <= store[p]->0.keys.len(),
    ensures
        0 <= prefix_len(store, g.leaves, (g.pos)(p) as nat) + i <= tree_entries(store, g).len(),
        (prefix_len(store, g.leaves, (g.pos)(p) as nat) + i == tree_entries(store, g).len()) == (
        store[p]->0.next_leaf is None && i == store[p]->0.keys.len()),
{
    let n = g.leaves.len();
    lemma_leaf_ranges(store, free, g);
    lemma_entries_len(store, g.leaves, n);
    assert(page_ok(store, free, g, p));
    let k = (g.pos)(p);
    assert(link_ok(store, g, k));
    lemma_prefix_mono(store, g.leaves, (k + 1) as nat, n);
    if k + 1 < n {
        let q = g.leaves[k + 1];
        assert(page_ok(store, free, g, q));
        assert(link_ok(store, g, k + 1));
        assert(store[q]->0.is_leaf);
        if q == 0 {
            lemma_root_leaf_alone(store, free, g);
        }
        assert(store[q]->0.keys.len() >= 1);
        lemma_prefix_mono(store, g.leaves, (k + 2) as nat, n);
    }
}

/// The cells of the leaves from `k` up to `n`, in order.
pub open spec fn entries_from(store: Store, leaves: Seq<int>, k: nat, n: nat) -> Seq<
    (usize, RowView),
>
    decreases n,
{
    if n <= k {
        Seq::empty()
    } else {
        entries_from(store, leaves, k, (n - 1) as nat) + leaf_entries(store[leaves[n - 1]]->0)
    }
}

/// The cells of the first `n` leaves are those of the first `k` and then
/// those of the rest.
pub proof fn lemma_entries_split(store: Store, leaves: Seq<int>, k: nat, n: nat)
    requires
        k <= n,
    ensures
        entries_upto(store, leaves, n) == entries_upto(store, leaves, k) + entries_from(
            store,
            leaves,
            k,
            n,
        ),
    decreases n,
{
    if k < n {
        lemma_entries_split(store, leaves, k, (n - 1) as nat);
        assert(entries_upto(store, leaves, n) =~= entries_upto(store, leaves, k) + entries_from(
            store,
            leaves,
            k,
            n,
        ));
    } else {
        assert(entries_upto(store, leaves, n) =~= entries_upto(store, leaves, k) + entries_from(
            store,
            leaves,
            k,
            n,
        ));
    }
}

/// The cells of the first leaves depend on the cells of those leaves alone.
pub proof fn lemma_entries_upto_same(
    store: Store,
    leaves: Seq<int>,
    store2: Store,
    leaves2: Seq<int>,
    n: nat,
)
    requires
        forall|j: int|
            0 <= j < n ==> leaf_entries(store[#[trigger] leaves[j]]->0) == leaf_entries(
                store2[leaves2[j]]->0,
            ),
    ensures
        entries_upto(store, leaves, n) == entries_upto(store2, leaves2, n),
        prefix_len(store, leaves, n) == prefix_len(store2, leaves2, n),
    decreases n,
{
    if n > 0 {
        lemma_entries_upto_same(store, leaves, store2, leaves2, (n - 1) as nat);
        assert(leaf_entries(store[leaves[n - 1]]->0) == leaf_entries(store2[leaves2[n - 1]]->0));
        lemma_entries_len(store, leaves, n);
        lemma_entries_len(store2, leaves2, n);
        lemma_entries_len(store, leaves, (n - 1) as nat);
        lemma_entries_len(store2, leaves2, (n - 1) as nat);
    }
}

/// The cells of a stretch of leaves depend on the cells of those leaves
/// alone, wherever the stretch stands.
pub proof fn lemma_entries_from_same(
    store: Store,
    leaves: Seq<int>,
    k: nat,
    n: nat,
    store2: Store,
    leaves2: Seq<int>,
    shift: int,
)
    requires
        k <= n,
        k + shift >= 0,
        forall|j: int|
            k <= j < n ==> leaf_entries(store[#[trigger] leaves[j]]->0) == leaf_entries(
                store2[leaves2[j + shift]]->0,
            ),
    ensures
        entries_from(store, leaves, k, n) == entries_from(
            store2,
            leaves2,
            (k + shift) as nat,
            (n + shift) as nat,
        ),
    decreases n,
{
    if k < n {
        lemma_entries_from_same(store, leaves, k, (n - 1) as nat, store2, leaves2, shift);
        assert(leaf_entries(store[leaves[n - 1]]->0) == leaf_entries(
            store2[leaves2[n - 1 + shift]]->0,
        ));
    }
}

/// A tree stays the tree it is where the pages of the tree stay as they
/// are, no page is taken away, and no offset joins the recycled ones.
pub proof fn lemma_inv_frame(
    store: Store,
    free: Seq<usize>,
    g: Shape,
    store2: Store,
    free2: Seq<usize>,
)
    requires
        inv(store, free, g),
        store.len() <= store2.len() <= u32::MAX,
        forall|p: int| g.pages.contains(p) ==> #[trigger] store2[p] == store[p],
        forall|j: int| 0 <= j < free2.len() ==> free.contains(#[trigger] free2[j]),
        forall|a: int, b: int| 0 <= a < b < free2.len() ==> free2[a] != free2[b],
        (g.level)(0) + g.leaves.len() + free2.len() <= store2.len(),
    ensures
        inv(store2, free2, g),
        tree_entries(store2, g) == tree_entries(store, g),
{
    assert forall|p: int| g.pages.contains(p) implies #[trigger] page_ok(store2, free2, g, p) by {
        assert(page_ok(store, free, g, p));
        assert(store2[p] == store[p]);
        assert forall|j: int| 0 <= j < free2.len() implies #[trigger] free2[j] != p by {
            let i = choose|i: int| 0 <= i < free.len() && free[i] == free2[j];
            assert(free[i] != p);
        }
    }
    assert forall|k: int| 0 <= k < g.leaves.len() implies #[trigger] link_ok(store2, g, k) by {
        assert(link_ok(store, g, k));
        assert(store2[g.leaves[k]] == store[g.leaves[k]]);
    }
    assert forall|j: int| 0 <= j < g.leaves.len() implies leaf_entries(
        store[#[trigger] g.leaves[j]]->0,
    ) == leaf_entries(store2[g.leaves[j]]->0) by {
        assert(link_ok(store, g, j));
        assert(store2[g.leaves[j]] == store[g.leaves[j]]);
    }
    lemma_entries_upto_same(store, g.leaves, store2, g.leaves, g.leaves.len());
}

/// The leaf reached from page `p` by taking the first child `fuel` times at
/// most.
pub open spec fn leftmost(store: Store, p: int, fuel: nat) -> int
    decreases fuel,
{
    if fuel == 0 || !(0 <= p < store.len()) || store[p] is None || store[p]->0.is_leaf
        || store[p]->0.children.len() == 0 {
        p
    } else {
        leftmost(store, store[p]->0.children[0].0 as int, (fuel - 1) as nat)
    }
}

/// The number of steps from page `p` to the leaf reached by taking the
/// first child `fuel` times at most.
pub open spec fn depth_below(store: Store, p: int, fuel: nat) -> nat
    decreases fuel,
{
    if fuel == 0 || !(0 <= p < store.len()) || store[p] is None || store[p]->0.is_leaf
        || store[p]->0.children.len() == 0 {
        0
    } else {
        1 + depth_below(store, store[p]->0.children[0].0 as int, (fuel - 1) as nat)
    }
}

/// Below a page of a tree, the first children lead to the leaf that starts
/// where the page's keys start, in as many steps as the page stands above
/// the leaves.
pub proof fn lemma_leftmost(store: Store, free: Seq<usize>, g: Shape, p: int, fuel: nat)
    requires
        inv(store, free, g),
        g.pages.contains(p),
        fuel >= (g.level)(p),
    ensures
        g.pages.contains(leftmost(store, p, fuel)),
        (g.level)(leftmost(store, p, fuel)) == 0,
        (g.lo)(leftmost(store, p, fuel)) == (g.lo)(p),
        depth_below(store, p, fuel) == (g.level)(p),
    decreases fuel,
{
    assert(page_ok(store, free, g, p));
    let v = store[p]->0;
    if !v.is_leaf {
        assert(child_ok(g, p, v, 0));
        lemma_leftmost(store, free, g, v.children[0].0 as int, (fuel - 1) as nat);
    }
}

proof fn lemma_chain_same(store: Store, free: Seq<usize>, g1: Shape, g2: Shape, k: nat)
    requires
        inv(store, free, g1),
        inv(store, free, g2),
        g1.leaves[0] == g2.leaves[0],
        k < g1.leaves.len(),
    ensures
        k < g2.leaves.len(),
        g1.leaves[k as int] == g2.leaves[k as int],
        (k + 1 == g1.leaves.len()) == (k + 1 == g2.leaves.len()),
    decreases k,
{
    lemma_leaf_ranges(store, free, g1);
    lemma_leaf_ranges(store, free, g2);
    if k > 0 {
        lemma_chain_same(store, free, g1, g2, (k - 1) as nat);
        assert(link_ok(store, g1, k - 1));
        assert(link_ok(store, g2, k - 1));
        assert(page_ok(store, free, g1, g1.leaves[k as int]));
        assert(page_ok(store, free, g2, g2.leaves[k as int]));
    }
    assert(link_ok(store, g1, k as int));
    assert(link_ok(store, g2, k as int));
}

/// A store holds one tree at most: any two layouts of it have the same
/// leaves in the same order, and the same height.
pub proof fn lemma_one_tree(store: Store, free: Seq<usize>, g1: Shape, g2: Shape)
    requires
        inv(store, free, g1),
        inv(store, free, g2),
    ensures
        g1.leaves == g2.leaves,
        (g1.level)(0) == (g2.level)(0),
        tree_entries(store, g1) == tree_entries(store, g2),
{
    let fuel = store.len();
    lemma_leftmost(store, free, g1, 0, fuel);
    lemma_leftmost(store, free, g2, 0, fuel);
    let first = leftmost(store, 0, fuel);
    lemma_first_leaf(store, free, g1, first);
    lemma_first_leaf(store, free, g2, first);
    assert forall|k: int| 0 <= k < g1.leaves.len() implies k < g2.leaves.len() && g1.leaves[k]
        == g2.leaves[k] by {
        lemma_chain_same(store, free, g1, g2, k as nat);
    }
    lemma_chain_same(store, free, g1, g2, (g1.leaves.len() - 1) as nat);
    assert(g1.leaves =~= g2.leaves);
}

/// The first `k` leaves of a tree hold at most `MAX_LEAF_NODES` cells each.
pub proof fn lemma_prefix_bound(store: Store, free: Seq<usize>, g: Shape, k: nat)
    requires
        inv(store, free, g),
        k <= g.leaves.len(),
    ensures
        prefix_len(store, g.leaves, k) <= MAX_LEAF_NODES * k,
    decreases k,
{
    if k > 0 {
        lemma_prefix_bound(store, free, g, (k - 1) as nat);
        lemma_leaf_ranges(store, free, g);
        assert(page_ok(store, free, g, g.leaves[k - 1]));
    }
}

/// A tree holds at most `MAX_LEAF_NODES` entries for each page of the
/// store.
pub proof fn lemma_entries_bound(store: Store, free: Seq<usize>, g: Shape)
    requires
        inv(store, free, g),
    ensures
        tree_entries(store, g).len() <= MAX_LEAF_NODES * store.len(),
{
    lemma_prefix_bound(store, free, g, g.leaves.len());
    lemma_entries_len(store, g.leaves, g.leaves.len());
    assert(MAX_LEAF_NODES * g.leaves.len() <= MAX_LEAF_NODES * store.len()) by (nonlinear_arith)
        requires
            g.leaves.len() <= store.len(),
    ;
}

/// Whether the page `b` is a child of the internal node at the page `a`.
pub open spec fn child_of(store: Store, a: int, b: int) -> bool {
    &&& 0 <= a < store.len()
    &&& store[a] is Some
    &&& !store[a]->0.is_leaf
    &&& exists|i: int|
        0 <= i < store[a]->0.children.len() && (#[trigger] store[a]->0.children[i]).0 == b
}

/// Whether `path` leads from its first page down to its last, each page
/// but the first a child of the one before.
pub open spec fn is_path(store: Store, path: Seq<int>) -> bool {
    &&& path.len() >= 1
    &&& forall|k: int| 0 <= k < path.len() - 1 ==> child_of(store, #[trigger] path[k], path[k + 1])
}

/// The page at the end of a path from a page of a tree is a page of the
/// tree that stands as many levels below as the path has steps and covers
/// no key that the first page does not.
pub proof fn lemma_path(store: Store, free: Seq<usize>, g: Shape, path: Seq<int>)
    requires
        inv(store, free, g),
        is_path(store, path),
        g.pages.contains(path[0]),
    ensures
        g.pages.contains(path.last()),
        (g.level)(path.last()) + path.len() - 1 == (g.level)(path[0]),
        (g.lo)(path[0]) <= (g.lo)(path.last()),
        (g.hi)(path.last()) <= (g.hi)(path[0]),
    decreases path.len(),
{
    if path.len() > 1 {
        let front = path.drop_last();
        assert forall|k: int| 0 <= k < front.len() - 1 implies child_of(
            store,
            #[trigger] front[k],
            front[k + 1],
        ) by {
            assert(child_of(store, path[k], path[k + 1]));
        }
        lemma_path(store, free, g, front);
        let a = front.last();
        let b = path.last();
        assert(a == path[path.len() - 2]);
        assert(child_of(store, path[path.len() - 2], path[path.len() - 2 + 1]));
        assert(page_ok(store, free, g, a));
        let v = store[a]->0;
        let i = choose|i: int| 0 <= i < v.children.len() && (#[trigger] v.children[i]).0 == b;
        assert(child_ok(g, a, v, i));
        if i > 0 {
            assert((g.lo)(a) < v.keys[i - 1]);
        }
        if i < v.keys.len() {
            assert(v.keys[i] < (g.hi)(a));
        }
    }
}

} // verus!
