//! Binary search in ascending keys, and the rank of a key.

use vstd::prelude::*;
use crate::node_type::KeyValuePair;

verus! {

/// `keys` rises strictly from each element to the next.
pub open spec fn strictly_ascending(keys: Seq<usize>) -> bool {
    forall|i: int, j: int| 0 <= i < j < keys.len() ==> keys[i] < keys[j]
}

/// The keys of a run of leaf cells, in cell order.
pub open spec fn cell_keys<V>(cells: Seq<KeyValuePair<usize, V>>) -> Seq<usize> {
    Seq::new(cells.len(), |i: int| cells[i].key)
}

/// How many elements of `keys` lie below `key`: in an ascending sequence,
/// the index at which `key` stands or would be inserted.
pub open spec fn rank(keys: Seq<usize>, key: usize) -> nat
    decreases keys.len(),
{
    if keys.len() == 0 {
        0
    } else {
        rank(keys.drop_last(), key) + if keys.last() < key { 1nat } else { 0nat }
    }
}

/// In an ascending sequence the elements below `key` are exactly those
/// before index `rank(keys, key)`.
pub proof fn lemma_rank_splits(keys: Seq<usize>, key: usize)
    requires
        strictly_ascending(keys),
    ensures
        rank(keys, key) <= keys.len(),
        forall|i: int| 0 <= i < rank(keys, key) ==> keys[i] < key,
        forall|i: int| rank(keys, key) <= i < keys.len() ==> keys[i] >= key,
    decreases keys.len(),
{
    if keys.len() > 0 {
        let front = keys.drop_last();
        assert(strictly_ascending(front)) by {
            assert forall|i: int, j: int| 0 <= i < j < front.len() implies front[i] < front[j] by {
                assert(front[i] == keys[i] && front[j] == keys[j]);
            }
        }
        lemma_rank_splits(front, key);
        assert forall|i: int| 0 <= i < rank(keys, key) implies keys[i] < key by {
            if i < front.len() {
                assert(front[i] == keys[i]);
                if i >= rank(front, key) {
                    assert(keys[i] < keys[keys.len() - 1]);
                }
            }
        }
        assert forall|i: int| rank(keys, key) <= i < keys.len() implies keys[i] >= key by {
            if i < front.len() {
                assert(front[i] == keys[i]);
            }
            if keys.last() < key {
                assert(rank(front, key) == front.len()) by {
                    if rank(front, key) < front.len() {
                        assert(front[rank(front, key) as int] >= key);
                        assert(front[rank(front, key) as int] == keys[rank(front, key) as int]);
                        assert(keys[rank(front, key) as int] < keys[keys.len() - 1]);
                    }
                }
            }
        }
    }
}

/// An index that splits an ascending sequence into the elements below `key`
/// and those not below it is the rank of `key`.
pub proof fn lemma_rank_unique(keys: Seq<usize>, key: usize, at: int)
    requires
        strictly_ascending(keys),
        0 <= at <= keys.len(),
        forall|i: int| 0 <= i < at ==> keys[i] < key,
        forall|i: int| at <= i < keys.len() ==> keys[i] >= key,
    ensures
        rank(keys, key) == at,
{
    lemma_rank_splits(keys, key);
    let r = rank(keys, key) as int;
    if r < at {
        assert(keys[r] < key);
        assert(keys[r] >= key);
    } else if at < r {
        assert(keys[at] < key);
        assert(keys[at] >= key);
    }
}

/// Whether `key` occurs in `keys`.
pub open spec fn has_key(keys: Seq<usize>, key: usize) -> bool {
    exists|i: int| 0 <= i < keys.len() && keys[i] == key
}

/// Binary search of ascending separators: `Ok(i)` where `keys[i] == key`,
/// else `Err(i)` with `i` the index at which `key` would be inserted.
pub fn search_keys(keys: &Vec<usize>, key: usize) -> (r: Result<usize, usize>)
    requires
        strictly_ascending(keys@),
    ensures
        match r {
            Ok(i) => i < keys.len() && keys[i as int] == key && i == rank(keys@, key),
            Err(i) => i <= keys.len() && !has_key(keys@, key) && i == rank(keys@, key),
        },
{
    let mut lo: usize = 0;
    let mut hi: usize = keys.len();
    while lo < hi
        invariant
            0 <= lo <= hi <= keys.len(),
            strictly_ascending(keys@),
            forall|i: int| 0 <= i < lo ==> keys[i] < key,
            forall|i: int| hi <= i < keys.len() ==> keys[i] > key,
        decreases hi - lo,
    {
        let mid: usize = lo + (hi - lo) / 2;
        let k: usize = keys[mid];
        if k == key {
            proof {
                lemma_rank_unique(keys@, key, mid as int);
            }
            return Ok(mid);
        } else if k < key {
            lo = mid + 1;
        } else {
            hi = mid;
        }
    }
    proof {
        lemma_rank_unique(keys@, key, lo as int);
    }
    Err(lo)
}

/// Binary search of a leaf's cells by key, with the result of
/// [`search_keys`] over the cells' keys.
pub fn search_cells<V>(cells: &Vec<KeyValuePair<usize, V>>, key: usize) -> (r: Result<usize, usize>)
    requires
        strictly_ascending(cell_keys(cells@)),
    ensures
        match r {
            Ok(i) => i < cells.len() && cells[i as int].key == key && i == rank(
                cell_keys(cells@),
                key,
            ),
            Err(i) => i <= cells.len() && !has_key(cell_keys(cells@), key) && i == rank(
                cell_keys(cells@),
                key,
            ),
        },
{
    let ghost keys = cell_keys(cells@);
    let mut lo: usize = 0;
    let mut hi: usize = cells.len();
    while lo < hi
        invariant
            0 <= lo <= hi <= cells.len(),
            keys == cell_keys(cells@),
            strictly_ascending(keys),
            forall|i: int| 0 <= i < lo ==> keys[i] < key,
            forall|i: int| hi <= i < keys.len() ==> keys[i] > key,
        decreases hi - lo,
    {
        let mid: usize = lo + (hi - lo) / 2;
        let k: usize = cells[mid].key;
        assert(k == keys[mid as int]);
        if k == key {
            proof {
                lemma_rank_unique(keys, key, mid as int);
            }
            return Ok(mid);
        } else if k < key {
            lo = mid + 1;
        } else {
            hi = mid;
        }
    }
    proof {
        lemma_rank_unique(keys, key, lo as int);
    }
    Err(lo)
}

} // verus!
