//! The pager: the cache of nodes over the backing image.

use vstd::prelude::*;
use crate::bytes::{copy_bytes, splice, write_bytes};
use crate::datastore::Row;
use crate::error::DbError;
use crate::node::{Node, NodeView};
use crate::page::{
    NO_OFFSET,
    PAGE_SIZE,
    Page,
    decodes,
    fits_page,
    lemma_internal_page_reads,
    lemma_leaf_page_reads,
    lemma_page_round_trip,
    node_of_page,
    page_bytes,
    page_exact,
};
use crate::search::strictly_ascending;

verus! {

/// The position of a page in the backing file; page 0 is the root.
#[derive(Clone, Copy, Debug, PartialEq, Eq, Structural, Hash, PartialOrd, Ord)]
pub struct Offset(pub usize);

/// Anything that lives at a page offset.
pub trait HasOffset {
    spec fn spec_offset(&self) -> Offset;

    fn offset(&self) -> (r: Offset)
        ensures
            r == self.spec_offset(),
    ;
}

/// The most pages any pager holds: every offset must fit four bytes below
/// the number that stands for "no page", and the image must fit the address
/// space.
pub open spec fn page_ceiling() -> nat {
    if usize::MAX / PAGE_SIZE < NO_OFFSET {
        (usize::MAX / PAGE_SIZE) as nat
    } else {
        NO_OFFSET as nat
    }
}

/// The bytes of page `i` of a backing image.
pub open spec fn stored_page(image: Seq<u8>, i: int) -> Seq<u8> {
    image.subrange(i * PAGE_SIZE, (i + 1) * PAGE_SIZE)
}

/// The node that page `i` of a backing image stores, if the image has such
/// a page and it stores a node.
pub open spec fn stored_node(image: Seq<u8>, i: int) -> Option<NodeView> {
    if 0 <= i && (i + 1) * PAGE_SIZE <= image.len() && decodes(stored_page(image, i)) {
        Some(node_of_page(stored_page(image, i), Offset(i as usize)))
    } else {
        None
    }
}

/// `image`, cut or filled up with zero bytes to `len` bytes.
pub open spec fn zero_extended(image: Seq<u8>, len: int) -> Seq<u8> {
    Seq::new(
        len as nat,
        |i: int|
            if i < image.len() {
                image[i]
            } else {
                0u8
            },
    )
}

/// `image` with the page of each of the first `n` nodes of `views` written
/// over the page at its index.
pub open spec fn flush_upto(image: Seq<u8>, views: Seq<Option<NodeView>>, n: nat) -> Seq<u8>
    decreases n,
{
    if n == 0 {
        image
    } else {
        let b = flush_upto(image, views, (n - 1) as nat);
        match views[n - 1] {
            Some(v) => splice(b, (n - 1) * PAGE_SIZE, page_bytes(v)),
            None => b,
        }
    }
}

/// The index of the first smallest element of a sequence.
pub open spec fn min_index(s: Seq<usize>) -> int
    decreases s.len(),
{
    if s.len() <= 1 {
        0
    } else {
        let k = min_index(s.drop_last());
        if s.last() < s[k] {
            s.len() - 1
        } else {
            k
        }
    }
}

/// The index of the first smallest element is an index of the sequence, and
/// no element is smaller than the one there.
pub proof fn lemma_min_index(s: Seq<usize>)
    requires
        s.len() > 0,
    ensures
        0 <= min_index(s) < s.len(),
        forall|j: int| 0 <= j < s.len() ==> s[min_index(s)] <= #[trigger] s[j],
    decreases s.len(),
{
    if s.len() > 1 {
        let front = s.drop_last();
        lemma_min_index(front);
        assert forall|j: int| 0 <= j < s.len() implies s[min_index(s)] <= #[trigger] s[j] by {
            if j < front.len() {
                assert(front[j] == s[j]);
                assert(front[min_index(front)] == s[min_index(front)]);
            }
        }
    }
}

/// The page written for a node that fits a page is of `PAGE_SIZE` bytes.
pub proof fn lemma_page_bytes_len(v: NodeView)
    requires
        fits_page(v),
    ensures
        page_bytes(v).len() == PAGE_SIZE,
{
    if v.is_leaf {
        lemma_leaf_page_reads(v);
    } else {
        lemma_internal_page_reads(v);
    }
}

/// What an image reads as, page by page, after the first `n` nodes were
/// written over it.
pub proof fn lemma_flush_upto(image: Seq<u8>, views: Seq<Option<NodeView>>, n: nat)
    requires
        n <= views.len(),
        image.len() == views.len() * PAGE_SIZE,
        forall|i: int| 0 <= i < views.len() ==> (#[trigger] views[i] matches Some(v) ==> fits_page(v)),
    ensures
        flush_upto(image, views, n).len() == image.len(),
        forall|i: int|
            0 <= i < views.len() ==> #[trigger] stored_page(flush_upto(image, views, n), i) == (
            if i < n && views[i] is Some {
                page_bytes(views[i]->0)
            } else {
                stored_page(image, i)
            }),
    decreases n,
{
    if n > 0 {
        let b = flush_upto(image, views, (n - 1) as nat);
        lemma_flush_upto(image, views, (n - 1) as nat);
        let w = flush_upto(image, views, n);
        match views[n - 1] {
            Some(v) => {
                lemma_page_bytes_len(v);
                assert forall|i: int| 0 <= i < views.len() implies #[trigger] stored_page(w, i) == (
                if i < n && views[i] is Some {
                    page_bytes(views[i]->0)
                } else {
                    stored_page(image, i)
                }) by {
                    if i == n - 1 {
                        assert(stored_page(w, i) =~= page_bytes(v));
                    } else {
                        assert(stored_page(w, i) =~= stored_page(b, i));
                    }
                }
            },
            None => {},
        }
    }
}

/// The page cache over a backing image: hands out the nodes stored in the
/// image, keeps the ones it handed out or was given, allots page offsets,
/// and writes the nodes it keeps back into the image on `close`.
pub struct Pager {
    disk: Vec<u8>,
    num_pages: usize,
    max_pages: usize,
    cache: Vec<Option<Node<usize, Row>>>,
    free_pages: Vec<usize>,
}

impl Pager {
    /// The backing image as last opened or closed.
    pub closed spec fn image(&self) -> Seq<u8> {
        self.disk@
    }

    /// The pages allotted so far, written to the image or not.
    pub closed spec fn page_count(&self) -> nat {
        self.num_pages as nat
    }

    /// The most pages the pager allots.
    pub closed spec fn limit(&self) -> nat {
        self.max_pages as nat
    }

    /// The recycled offsets, in the order in which they were handed in.
    pub closed spec fn free(&self) -> Seq<usize> {
        self.free_pages@
    }

    /// The nodes kept in the cache, by offset.
    pub closed spec fn cached_views(&self) -> Seq<Option<NodeView>> {
        Seq::new(
            self.cache.len() as nat,
            |i: int|
                match self.cache[i] {
                    Some(n) => Some(n@),
                    None => None,
                },
        )
    }

    /// Whether the node at offset `i` is kept in the cache.
    pub open spec fn is_cached(&self, i: int) -> bool {
        0 <= i < self.cached_views().len() && self.cached_views()[i] is Some
    }

    /// The node at each offset: the cached one, else the one that the image
    /// stores there, else none.
    pub closed spec fn pages(&self) -> Seq<Option<NodeView>> {
        Seq::new(
            self.num_pages as nat,
            |i: int|
                if self.cached_views()[i] is Some {
                    self.cached_views()[i]
                } else {
                    stored_node(self.disk@, i)
                },
        )
    }

    /// The image that `close` leaves: as long as all pages, with the page of
    /// each cached node written at its offset, the other pages as they were,
    /// and zero bytes where there was nothing.
    pub open spec fn flushed_image(&self) -> Seq<u8> {
        flush_upto(
            zero_extended(self.image(), self.page_count() * PAGE_SIZE),
            self.cached_views(),
            self.page_count(),
        )
    }

    /// The error of asking for the node at offset `i` where there is none:
    /// `CorruptFile` where the image has a page there, else
    /// `InvariantViolation`.
    pub open spec fn miss_error(&self, i: int) -> DbError {
        if i < self.page_count() && (i + 1) * PAGE_SIZE <= self.image().len() {
            DbError::CorruptFile
        } else {
            DbError::InvariantViolation
        }
    }

    /// The pager's consistency: the image is a whole number of pages, no
    /// more than were allotted; each cached node is consistent, lives at its
    /// offset and fits a page; each recycled offset was allotted.
    pub closed spec fn wf(&self) -> bool {
        &&& self.disk.len() % PAGE_SIZE == 0
        &&& self.disk.len() <= self.num_pages * PAGE_SIZE
        &&& self.num_pages <= page_ceiling()
        &&& self.max_pages <= page_ceiling()
        &&& self.cache.len() == self.num_pages
        &&& forall|i: int|
            0 <= i < self.cache.len() ==> (#[trigger] self.cache[i] matches Some(n) ==> n.wf()
                && n.offset == Offset(i as usize) && fits_page(n@))
        &&& forall|j: int| 0 <= j < self.free_pages.len() ==> #[trigger] self.free_pages[j] < self.num_pages
    }

    /// What consistency means for a user of the pager.
    pub proof fn lemma_wf(&self)
        requires
            self.wf(),
        ensures
            self.pages().len() == self.page_count(),
            self.cached_views().len() == self.page_count(),
            self.page_count() <= page_ceiling(),
            self.limit() <= page_ceiling(),
            self.image().len() % (PAGE_SIZE as nat) == 0,
            self.image().len() <= self.page_count() * PAGE_SIZE,
            forall|j: int| 0 <= j < self.free().len() ==> #[trigger] self.free()[j] < self.page_count(),
            forall|i: int|
                0 <= i < self.page_count() ==> (#[trigger] self.pages()[i] matches Some(v)
                    ==> fits_page(v) && strictly_ascending(v.keys) && v.offset == Offset(i as usize)),
            forall|i: int|
                0 <= i < self.page_count() ==> #[trigger] self.pages()[i] == (if self.is_cached(i) {
                    self.cached_views()[i]
                } else {
                    stored_node(self.image(), i)
                }),
    {
        assert forall|i: int| 0 <= i < self.page_count() implies (#[trigger] self.pages()[i] matches Some(
            v,
        ) ==> fits_page(v) && strictly_ascending(v.keys) && v.offset == Offset(i as usize)) by {
            if self.cache[i] is Some {
                let n = self.cache[i]->0;
                assert(n.wf() && fits_page(n@));
            } else if stored_node(self.disk@, i) is Some {
                lemma_decoded_fits(stored_page(self.disk@, i), Offset(i as usize));
            }
        }
    }

    /// A pager over `disk` that allots up to the page ceiling; `CorruptFile`
    /// where `disk` is not a whole number of pages or holds more pages than
    /// offsets can name.
    pub fn open(disk: Vec<u8>) -> (r: Result<Self, DbError>)
        ensures
            r is Ok <==> disk.len() % PAGE_SIZE == 0 && disk.len() / PAGE_SIZE <= page_ceiling(),
            r matches Err(e) ==> e == DbError::CorruptFile,
            r matches Ok(p) ==> {
                &&& p.wf()
                &&& p.image() == disk@
                &&& p.page_count() == disk.len() / PAGE_SIZE
                &&& p.limit() == page_ceiling()
                &&& p.free() == Seq::<usize>::empty()
                &&& forall|i: int| !p.is_cached(i)
                &&& p.pages().len() == disk.len() / PAGE_SIZE
                &&& forall|i: int|
                    0 <= i < p.pages().len() ==> #[trigger] p.pages()[i] == stored_node(disk@, i)
            },
    {
        Pager::open_with_limit(disk, usize::MAX)
    }

    /// As [`Pager::open`], allotting no more than `max_pages` pages.
    pub fn open_with_limit(disk: Vec<u8>, max_pages: usize) -> (r: Result<Self, DbError>)
        ensures
            r is Ok <==> disk.len() % PAGE_SIZE == 0 && disk.len() / PAGE_SIZE <= page_ceiling(),
            r matches Err(e) ==> e == DbError::CorruptFile,
            r matches Ok(p) ==> {
                &&& p.wf()
                &&& p.image() == disk@
                &&& p.page_count() == disk.len() / PAGE_SIZE
                &&& p.limit() == if max_pages <= page_ceiling() {
                    max_pages as nat
                } else {
                    page_ceiling()
                }
                &&& p.free() == Seq::<usize>::empty()
                &&& forall|i: int| !p.is_cached(i)
                &&& p.pages().len() == disk.len() / PAGE_SIZE
                &&& forall|i: int|
                    0 <= i < p.pages().len() ==> #[trigger] p.pages()[i] == stored_node(disk@, i)
            },
    {
        if disk.len() % PAGE_SIZE != 0 {
            return Err(DbError::CorruptFile);
        }
        let num_pages = disk.len() / PAGE_SIZE;
        let by_size: usize = usize::MAX / PAGE_SIZE;
        let ceiling: usize = if by_size < 0xFFFF_FFFF {
            by_size
        } else {
            0xFFFF_FFFF
        };
        if num_pages > ceiling {
            return Err(DbError::CorruptFile);
        }
        let max_pages = if max_pages <= ceiling {
            max_pages
        } else {
            ceiling
        };
        let mut cache: Vec<Option<Node<usize, Row>>> = Vec::new();
        let mut i: usize = 0;
        while i < num_pages
            invariant
                i <= num_pages,
                cache.len() == i,
                forall|j: int| 0 <= j < i ==> cache[j] is None,
            decreases num_pages - i,
        {
            cache.push(None);
            i += 1;
        }
        Ok(Pager { disk, num_pages, max_pages, cache, free_pages: Vec::new() })
    }

    /// The bytes of the backing image as last opened or closed.
    pub fn image_bytes(&self) -> (r: &Vec<u8>)
        ensures
            r@ == self.image(),
    {
        &self.disk
    }

    /// The pages allotted so far.
    pub fn num_pages(&self) -> (r: usize)
        ensures
            r == self.page_count(),
    {
        self.num_pages
    }

    /// The pages that `new_page` can still hand out: the recycled offsets
    /// and the offsets up to the limit.
    pub open spec fn room(&self) -> nat {
        self.free().len() + if self.page_count() < self.limit() {
            (self.limit() - self.page_count()) as nat
        } else {
            0nat
        }
    }

    /// The pages that `new_page` can still hand out, as far as a `usize`
    /// counts.
    pub fn pages_left(&self) -> (r: usize)
        requires
            self.wf(),
        ensures
            r == if self.room() <= usize::MAX {
                self.room()
            } else {
                usize::MAX as nat
            },
    {
        let fresh = if self.num_pages < self.max_pages {
            self.max_pages - self.num_pages
        } else {
            0
        };
        let recycled = self.free_pages.len();
        if recycled > usize::MAX - fresh {
            usize::MAX
        } else {
            recycled + fresh
        }
    }

    /// The page that `new_page` hands out next, if it hands one out.
    pub fn next_page(&self) -> (r: Offset)
        requires
            self.wf(),
        ensures
            r.0 == if self.free().len() > 0 {
                self.free()[min_index(self.free())] as nat
            } else {
                self.page_count()
            },
    {
        let n = self.free_pages.len();
        if n == 0 {
            return Offset(self.num_pages);
        }
        let mut best: usize = 0;
        let mut i: usize = 1;
        while i < n
            invariant
                1 <= i <= n,
                n == self.free_pages.len(),
                best == min_index(self.free_pages@.subrange(0, i as int)),
                0 <= best < i,
            decreases n - i,
        {
            proof {
                let upto = self.free_pages@.subrange(0, i + 1);
                assert(upto.drop_last() =~= self.free_pages@.subrange(0, i as int));
            }
            if self.free_pages[i] < self.free_pages[best] {
                best = i;
            }
            i += 1;
        }
        assert(self.free_pages@.subrange(0, n as int) =~= self.free_pages@);
        Offset(self.free_pages[best])
    }

    /// Allots a page: the smallest recycled offset if there is one, else the
    /// next offset behind the pages so far; `TableFull` where there is no
    /// recycled offset and the limit is reached.
    pub fn new_page(&mut self) -> (r: Result<Offset, DbError>)
        requires
            old(self).wf(),
        ensures
            final(self).wf(),
            final(self).image() == old(self).image(),
            final(self).limit() == old(self).limit(),
            final(self).cached_views().len() == final(self).page_count(),
            forall|i: int| old(self).is_cached(i) == final(self).is_cached(i),
            r is Ok <==> old(self).room() > 0,
            r is Ok ==> final(self).room() + 1 == old(self).room(),
            match r {
                Ok(o) => if old(self).free().len() > 0 {
                    let k = min_index(old(self).free());
                    &&& o.0 == old(self).free()[k]
                    &&& final(self).free() == old(self).free().remove(k)
                    &&& final(self).page_count() == old(self).page_count()
                    &&& final(self).pages() == old(self).pages()
                } else {
                    &&& old(self).page_count() < old(self).limit()
                    &&& o.0 == old(self).page_count()
                    &&& final(self).free() == old(self).free()
                    &&& final(self).page_count() == old(self).page_count() + 1
                    &&& final(self).pages() == old(self).pages().push(None)
                },
                Err(e) => {
                    &&& e == DbError::TableFull
                    &&& old(self).free().len() == 0
                    &&& old(self).page_count() >= old(self).limit()
                    &&& final(self).free() == old(self).free()
                    &&& final(self).page_count() == old(self).page_count()
                    &&& final(self).pages() == old(self).pages()
                },
            },
    {
        let n = self.free_pages.len();
        if n > 0 {
            let mut best: usize = 0;
            let mut i: usize = 1;
            while i < n
                invariant
                    1 <= i <= n,
                    n == self.free_pages.len(),
                    best == min_index(self.free_pages@.subrange(0, i as int)),
                    0 <= best < i,
                decreases n - i,
            {
                proof {
                    let upto = self.free_pages@.subrange(0, i + 1);
                    assert(upto.drop_last() =~= self.free_pages@.subrange(0, i as int));
                }
                if self.free_pages[i] < self.free_pages[best] {
                    best = i;
                }
                i += 1;
            }
            assert(self.free_pages@.subrange(0, n as int) =~= self.free_pages@);
            proof {
                lemma_min_index(self.free_pages@);
            }
            let o = self.free_pages.remove(best);
            assert(self.cached_views() =~= old(self).cached_views());
            assert(self.pages() =~= old(self).pages());
            Ok(Offset(o))
        } else if self.num_pages < self.max_pages {
            let o = self.num_pages;
            self.num_pages = self.num_pages + 1;
            self.cache.push(None);
            proof {
                assert(self.cached_views() =~= old(self).cached_views().push(None));
                assert(stored_node(self.disk@, o as int) is None);
                assert(self.pages() =~= old(self).pages().push(None));
                assert forall|i: int| old(self).is_cached(i) == self.is_cached(i) by {}
            }
            Ok(Offset(o))
        } else {
            Err(DbError::TableFull)
        }
    }

    /// Gives an allotted offset back: its node leaves the cache and the
    /// offset joins the recycled ones. An offset that was never allotted is
    /// ignored.
    pub fn recycle(&mut self, offset: Offset)
        requires
            old(self).wf(),
        ensures
            final(self).wf(),
            final(self).image() == old(self).image(),
            final(self).limit() == old(self).limit(),
            final(self).page_count() == old(self).page_count(),
            if offset.0 < old(self).page_count() {
                &&& final(self).free() == old(self).free().push(offset.0)
                &&& final(self).pages() == old(self).pages().update(
                    offset.0 as int,
                    stored_node(old(self).image(), offset.0 as int),
                )
                &&& final(self).cached_views() == old(self).cached_views().update(
                    offset.0 as int,
                    None,
                )
            } else {
                &&& final(self).free() == old(self).free()
                &&& final(self).pages() == old(self).pages()
                &&& final(self).cached_views() == old(self).cached_views()
            },
    {
        if offset.0 < self.num_pages {
            self.cache[offset.0] = None;
            self.free_pages.push(offset.0);
            proof {
                assert(self.cached_views() =~= old(self).cached_views().update(
                    offset.0 as int,
                    None,
                ));
                assert(self.pages() =~= old(self).pages().update(
                    offset.0 as int,
                    stored_node(old(self).image(), offset.0 as int),
                ));
            }
        }
    }

    /// Makes sure the node at `offset` is in the cache, decoding its page on
    /// a miss. Fails with `InvariantViolation` on an offset that was never
    /// allotted or has nothing behind it, and with `CorruptFile` on a page
    /// that stores no node.
    pub fn fetch(&mut self, offset: Offset) -> (r: Result<(), DbError>)
        requires
            old(self).wf(),
        ensures
            final(self).wf(),
            final(self).image() == old(self).image(),
            final(self).limit() == old(self).limit(),
            final(self).page_count() == old(self).page_count(),
            final(self).free() == old(self).free(),
            final(self).pages() == old(self).pages(),
            forall|i: int| old(self).is_cached(i) ==> final(self).is_cached(i),
            forall|i: int| final(self).is_cached(i) ==> old(self).is_cached(i) || i == offset.0,
            r is Ok <==> offset.0 < old(self).page_count() && old(self).pages()[offset.0 as int] is Some,
            r is Ok ==> final(self).is_cached(offset.0 as int),
            r is Err ==> final(self).cached_views() == old(self).cached_views(),
            r matches Err(e) ==> e == old(self).miss_error(offset.0 as int),
    {
        let i = offset.0;
        if i >= self.num_pages {
            return Err(DbError::InvariantViolation);
        }
        if self.cache[i].is_some() {
            return Ok(());
        }
        assert(self.cached_views()[i as int] is None);
        if (i + 1) * PAGE_SIZE > self.disk.len() {
            assert(stored_node(self.disk@, i as int) is None);
            return Err(DbError::InvariantViolation);
        }
        let page = Page::load(copy_bytes(self.disk.as_slice(), i * PAGE_SIZE, PAGE_SIZE));
        assert(page@ == stored_page(self.disk@, i as int));
        match Node::from_page(&page, offset) {
            Ok(node) => {
                self.cache[i] = Some(node);
                proof {
                    assert(self.cached_views() =~= old(self).cached_views().update(
                        i as int,
                        Some(node@),
                    ));
                    assert(self.pages() =~= old(self).pages());
                }
                Ok(())
            },
            Err(e) => Err(e),
        }
    }

    /// The cached node at `offset`.
    pub fn node(&self, offset: Offset) -> (r: &Node<usize, Row>)
        requires
            self.wf(),
            self.is_cached(offset.0 as int),
        ensures
            Some(r@) == self.pages()[offset.0 as int],
            r.wf(),
            r.offset == offset,
            fits_page(r@),
    {
        match &self.cache[offset.0] {
            Some(n) => n,
            None => vstd::pervasive::unreached(),
        }
    }

    /// The cached node at `offset`, to be changed in place. The pager stays
    /// consistent if the node, when the borrow ends, is consistent, still at
    /// its offset, and fits a page.
    pub fn node_mut(&mut self, offset: Offset) -> (r: &mut Node<usize, Row>)
        requires
            old(self).wf(),
            old(self).is_cached(offset.0 as int),
        ensures
            Some(r@) == old(self).pages()[offset.0 as int],
            r.wf(),
            r.offset == offset,
            fits_page(r@),
            final(self).image() == old(self).image(),
            final(self).limit() == old(self).limit(),
            final(self).page_count() == old(self).page_count(),
            final(self).free() == old(self).free(),
            final(self).pages() == old(self).pages().update(offset.0 as int, Some(final(r)@)),
            final(self).cached_views() == old(self).cached_views().update(
                offset.0 as int,
                Some(final(r)@),
            ),
            final(r).wf() && final(r).offset == offset && fits_page(final(r)@) ==> final(self).wf(),
    {
        match &mut self.cache[offset.0] {
            Some(n) => n,
            None => vstd::pervasive::unreached(),
        }
    }

    /// The node at `offset`, fetched into the cache if it was not there.
    pub fn get(&mut self, page: &Offset) -> (r: Result<&Node<usize, Row>, DbError>)
        requires
            old(self).wf(),
        ensures
            final(self).wf(),
            final(self).image() == old(self).image(),
            final(self).limit() == old(self).limit(),
            final(self).page_count() == old(self).page_count(),
            final(self).free() == old(self).free(),
            final(self).pages() == old(self).pages(),
            forall|i: int| old(self).is_cached(i) ==> final(self).is_cached(i),
            r is Ok <==> page.0 < old(self).page_count() && old(self).pages()[page.0 as int] is Some,
            r matches Ok(n) ==> {
                &&& Some(n@) == old(self).pages()[page.0 as int]
                &&& n.wf()
                &&& n.offset == *page
                &&& fits_page(n@)
                &&& final(self).is_cached(page.0 as int)
            },
            r matches Err(e) ==> e == old(self).miss_error(page.0 as int),
    {
        match self.fetch(*page) {
            Ok(()) => Ok(self.node(*page)),
            Err(e) => Err(e),
        }
    }

    /// Moves the cached node at `from` to the allotted offset `to`, which it
    /// then records as its own; what the image stores at `from` is then the
    /// node there again. Does nothing, and says so, where the node at `from`
    /// is not cached, `to` was never allotted, or the two are one.
    pub fn move_entry(&mut self, from: &Offset, to: Offset) -> (r: bool)
        requires
            old(self).wf(),
        ensures
            final(self).wf(),
            final(self).image() == old(self).image(),
            final(self).limit() == old(self).limit(),
            final(self).page_count() == old(self).page_count(),
            final(self).free() == old(self).free(),
            r == (old(self).is_cached(from.0 as int) && to.0 < old(self).page_count() && from.0
                != to.0),
            if r {
                &&& final(self).pages() == old(self).pages().update(
                    to.0 as int,
                    Some(NodeView { offset: to, ..old(self).pages()[from.0 as int]->0 }),
                ).update(from.0 as int, stored_node(old(self).image(), from.0 as int))
                &&& final(self).is_cached(to.0 as int)
                &&& forall|i: int|
                    i != from.0 && old(self).is_cached(i) ==> final(self).is_cached(i)
            } else {
                &&& final(self).pages() == old(self).pages()
                &&& final(self).cached_views() == old(self).cached_views()
            },
    {
        if from.0 >= self.num_pages || to.0 >= self.num_pages || from.0 == to.0 {
            return false;
        }
        if self.cache[from.0].is_none() {
            return false;
        }
        let taken = self.cache[from.0].take();
        match taken {
            Some(node) => {
                let mut node = node;
                let ghost v = node@;
                node.offset = to;
                let ghost w = node@;
                self.cache[to.0] = Some(node);
                proof {
                    assert(w == (NodeView { offset: to, ..v }));
                    assert(self.cached_views() =~= old(self).cached_views().update(
                        from.0 as int,
                        None,
                    ).update(to.0 as int, Some(w)));
                    assert(self.pages() =~= old(self).pages().update(to.0 as int, Some(w)).update(
                        from.0 as int,
                        stored_node(old(self).image(), from.0 as int),
                    ));
                }
                true
            },
            None => false,
        }
    }

    /// Puts `n` into the cache at its own offset, in place of what was
    /// there; at the offset just behind the pages so far it adds a page.
    /// Fails, changing nothing, with `InvariantViolation` on a node that is
    /// inconsistent, does not fit a page, or lies further behind, and with
    /// `TableFull` where the added page would pass the limit.
    pub fn commit(&mut self, n: Node<usize, Row>) -> (r: Result<(), DbError>)
        requires
            old(self).wf(),
        ensures
            final(self).wf(),
            final(self).image() == old(self).image(),
            final(self).limit() == old(self).limit(),
            final(self).free() == old(self).free(),
            r is Ok <==> n.wf() && fits_page(n@) && (n.offset.0 < old(self).page_count() || (
            n.offset.0 == old(self).page_count() && old(self).page_count() < old(self).limit())),
            match r {
                Ok(()) => if n.offset.0 < old(self).page_count() {
                    &&& final(self).page_count() == old(self).page_count()
                    &&& final(self).pages() == old(self).pages().update(n.offset.0 as int, Some(n@))
                    &&& final(self).cached_views() == old(self).cached_views().update(
                        n.offset.0 as int,
                        Some(n@),
                    )
                } else {
                    &&& final(self).page_count() == old(self).page_count() + 1
                    &&& final(self).pages() == old(self).pages().push(Some(n@))
                    &&& final(self).cached_views() == old(self).cached_views().push(Some(n@))
                },
                Err(e) => {
                    &&& e == if n.wf() && fits_page(n@) && n.offset.0 == old(self).page_count() {
                        DbError::TableFull
                    } else {
                        DbError::InvariantViolation
                    }
                    &&& final(self).page_count() == old(self).page_count()
                    &&& final(self).pages() == old(self).pages()
                    &&& final(self).cached_views() == old(self).cached_views()
                },
            },
    {
        if !n.is_storable() {
            return Err(DbError::InvariantViolation);
        }
        let i = n.offset.0;
        if i > self.num_pages {
            return Err(DbError::InvariantViolation);
        }
        let ghost v = n@;
        if i == self.num_pages {
            if self.num_pages >= self.max_pages {
                return Err(DbError::TableFull);
            }
            self.cache.push(Some(n));
            self.num_pages = self.num_pages + 1;
            proof {
                assert(self.cached_views() =~= old(self).cached_views().push(Some(v)));
                assert(self.pages() =~= old(self).pages().push(Some(v)));
            }
        } else {
            self.cache[i] = Some(n);
            proof {
                assert(self.cached_views() =~= old(self).cached_views().update(i as int, Some(v)));
                assert(self.pages() =~= old(self).pages().update(i as int, Some(v)));
            }
        }
        Ok(())
    }

    /// Writes every cached node into the image, which grows to hold all
    /// pages. The cache stays as it is.
    pub fn close(&mut self)
        requires
            old(self).wf(),
        ensures
            final(self).wf(),
            final(self).image() == old(self).flushed_image(),
            final(self).image().len() == old(self).page_count() * PAGE_SIZE,
            final(self).limit() == old(self).limit(),
            final(self).page_count() == old(self).page_count(),
            final(self).free() == old(self).free(),
            final(self).cached_views() == old(self).cached_views(),
            forall|i: int|
                0 <= i < old(self).page_count() && old(self).pages()[i] is Some
                    ==> #[trigger] final(self).pages()[i] == old(self).pages()[i],
    {
        let total = self.num_pages * PAGE_SIZE;
        while self.disk.len() < total
            invariant
                self.disk.len() <= total,
                old(self).disk.len() <= self.disk.len(),
                self.disk@ == zero_extended(old(self).disk@, self.disk.len() as int),
                self.num_pages == old(self).num_pages,
                self.max_pages == old(self).max_pages,
                self.cache == old(self).cache,
                self.free_pages == old(self).free_pages,
            decreases total - self.disk.len(),
        {
            self.disk.push(0);
            assert(self.disk@ =~= zero_extended(old(self).disk@, self.disk.len() as int));
        }
        assert(self.disk@ =~= zero_extended(old(self).disk@, total as int));
        let ghost base = self.disk@;
        let ghost views = self.cached_views();
        let mut i: usize = 0;
        while i < self.num_pages
            invariant
                i <= self.num_pages,
                total == self.num_pages * PAGE_SIZE,
                self.disk.len() == total,
                self.disk@ == flush_upto(base, views, i as nat),
                views == self.cached_views(),
                base.len() == total,
                old(self).wf(),
                self.num_pages == old(self).num_pages,
                self.max_pages == old(self).max_pages,
                self.cache == old(self).cache,
                self.free_pages == old(self).free_pages,
            decreases self.num_pages - i,
        {
            match &self.cache[i] {
                Some(node) => {
                    assert(fits_page(node@));
                    let page = Page::from_node(node);
                    write_bytes(&mut self.disk, i * PAGE_SIZE, page.as_bytes());
                },
                None => {},
            }
            i += 1;
        }
        proof {
            assert(views =~= old(self).cached_views());
            lemma_flush_upto(base, views, self.num_pages as nat);
            assert forall|i: int|
                0 <= i < old(self).page_count() && old(self).pages()[i] is Some implies #[trigger] self.pages()[i]
                == old(self).pages()[i] by {
                if !(views[i] is Some) {
                    assert(stored_page(self.disk@, i) == stored_page(base, i));
                    assert(stored_page(base, i) =~= stored_page(old(self).disk@, i));
                }
            }
        }
    }

    /// After `close`, a pager opened on the image finds at each offset the
    /// node that this pager has there, provided that node's rows are stored
    /// in full.
    pub proof fn lemma_flushed_node(&self, i: int)
        requires
            self.wf(),
            0 <= i < self.page_count(),
            self.pages()[i] matches Some(v) && forall|j: int|
                0 <= j < v.rows.len() ==> crate::datastore::storable(#[trigger] v.rows[j]),
        ensures
            stored_node(self.flushed_image(), i) == self.pages()[i],
    {
        let base = zero_extended(self.image(), self.page_count() * PAGE_SIZE);
        let views = self.cached_views();
        self.lemma_wf();
        lemma_flush_upto(base, views, self.page_count());
        let v = self.pages()[i]->0;
        if views[i] is Some {
            assert(page_exact(v));
            lemma_page_round_trip(v);
        } else {
            assert(stored_page(base, i) =~= stored_page(self.image(), i));
        }
    }

    /// Closing twice writes nothing new: the image that `close` leaves is
    /// the image that a second `close` leaves.
    pub proof fn lemma_close_twice(&self, closed: &Pager)
        requires
            self.wf(),
            closed.image() == self.flushed_image(),
            closed.page_count() == self.page_count(),
            closed.cached_views() == self.cached_views(),
        ensures
            closed.flushed_image() == closed.image(),
    {
        let n = self.page_count();
        let views = self.cached_views();
        let base = zero_extended(self.image(), n * PAGE_SIZE);
        self.lemma_wf();
        lemma_flush_upto(base, views, n);
        let img = closed.image();
        assert(zero_extended(img, n * PAGE_SIZE) =~= img);
        lemma_flush_same(img, views, n);
    }
}

/// Writing over an image the pages it already holds leaves it as it is.
proof fn lemma_flush_same(image: Seq<u8>, views: Seq<Option<NodeView>>, n: nat)
    requires
        n <= views.len(),
        image.len() == views.len() * PAGE_SIZE,
        forall|i: int| 0 <= i < views.len() ==> (#[trigger] views[i] matches Some(v) ==> fits_page(v)),
        forall|i: int|
            0 <= i < views.len() && views[i] is Some ==> #[trigger] stored_page(image, i) == page_bytes(
                views[i]->0,
            ),
    ensures
        flush_upto(image, views, n) == image,
    decreases n,
{
    if n > 0 {
        lemma_flush_same(image, views, (n - 1) as nat);
        match views[n - 1] {
            Some(v) => {
                lemma_page_bytes_len(v);
                let w = splice(image, (n - 1) * PAGE_SIZE, page_bytes(v));
                assert(stored_page(image, n - 1) == page_bytes(v));
                assert forall|i: int| 0 <= i < image.len() implies w[i] == image[i] by {
                    if (n - 1) * PAGE_SIZE <= i < n * PAGE_SIZE {
                        assert(stored_page(image, n - 1)[i - (n - 1) * PAGE_SIZE] == image[i]);
                    }
                }
                assert(w =~= image);
            },
            None => {},
        }
    }
}

/// The node that a page stores fits a page, and its keys ascend strictly.
pub proof fn lemma_decoded_fits(bytes: Seq<u8>, offset: Offset)
    requires
        decodes(bytes),
    ensures
        fits_page(node_of_page(bytes, offset)),
        strictly_ascending(node_of_page(bytes, offset).keys),
{
}

} // verus!
