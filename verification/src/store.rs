//! The persistent posting-list store.
//!
//! A fixed directory maps every trigram to the first page of its
//! chain; pages hold either a count of documents (a tail) or, once
//! full, a forward pointer to the next page of the chain.  The store
//! works on plain word arrays; reading them from disk and writing
//! them back is the caller's concern.
//!
//! Page layout (`PAGE_SIZE` = 1024 words of 64 bits):
//! - word 0, the header: a value below `PAGE_SIZE` is the number of
//!   document identifiers held in words `1..=header`; a value of at
//!   least `PAGE_SIZE` marks a full page whose successor is
//!   `header - PAGE_SIZE`.
//! - pages 0 and 1 are reserved and never allocated.

use vstd::prelude::*;
use crate::bitset::TrigramSet;
use crate::bitset::elems;

verus! {

/// Words per page.
pub const PAGE_SIZE: usize = 1024;

/// Number of directory entries: one per trigram.
pub const DIR_LEN: usize = 262144;

/// Pages added whenever the page array runs out.
pub const GROW_PAGES: usize = 100;

/// Errors of the store.
#[derive(Clone, Copy, Debug, PartialEq, Eq, Structural)]
pub enum StoreError {
    /// The arrays handed to `open` do not have the shape of a store:
    /// wrong directory length, or a page array that is shorter than
    /// two pages or not a whole number of pages.
    BadGeometry,
    /// The arrays have the right shape but their contents break the
    /// store's invariants: a directory entry or forward pointer out
    /// of range or not strictly increasing, an empty allocated page,
    /// or two chains sharing a page.
    Corrupt,
}

/// The header word of page `p`.
pub open spec fn header_of(pages: Seq<u64>, p: int) -> int {
    pages[p * 1024] as int
}

/// The page that word `i` of the page array belongs to.
pub open spec fn word_page(i: int) -> int {
    i / 1024
}

/// Word `p * 1024 + j` lies in page `p`.
pub proof fn lemma_word_page_mul(p: int, j: int)
    requires
        0 <= j < 1024,
    ensures
        word_page(p * 1024 + j) == p,
{
    vstd::arithmetic::div_mod::lemma_fundamental_div_mod_converse(p * 1024 + j, 1024, p, j);
}

/// Whether a well-formed chain starts at page `p`, given that pages
/// `fp` and beyond have never been allocated.  Forward pointers must
/// strictly increase (a new tail is always a freshly allocated page),
/// which also bounds the chain's length.
pub open spec fn chain_ok(pages: Seq<u64>, p: int, fp: int) -> bool
    decreases fp - p,
{
    2 <= p < fp && {
        let h = header_of(pages, p);
        if h >= 1024 {
            p < h - 1024 < fp && chain_ok(pages, h - 1024, fp)
        } else {
            1 <= h
        }
    }
}

/// The pages of the chain starting at `p`, in order.
pub open spec fn chain_seq(pages: Seq<u64>, p: int, fp: int) -> Seq<int>
    decreases fp - p,
{
    if 2 <= p < fp {
        let h = header_of(pages, p);
        if h >= 1024 && p < h - 1024 && h - 1024 < fp {
            seq![p] + chain_seq(pages, h - 1024, fp)
        } else {
            seq![p]
        }
    } else {
        Seq::empty()
    }
}

/// How many documents a page with header `h` holds.
pub open spec fn count_of(h: int) -> int {
    if h >= 1024 {
        1023
    } else {
        h
    }
}

/// The documents stored in page `p`.
pub open spec fn page_docs(pages: Seq<u64>, p: int) -> Seq<u64> {
    Seq::new(count_of(header_of(pages, p)) as nat, |i: int| pages[p * 1024 + 1 + i])
}

/// The documents of the whole chain starting at `p`, in insertion
/// order.
pub open spec fn chain_docs(pages: Seq<u64>, p: int, fp: int) -> Seq<u64>
    decreases fp - p,
{
    if 2 <= p < fp {
        let h = header_of(pages, p);
        if h >= 1024 && p < h - 1024 && h - 1024 < fp {
            page_docs(pages, p) + chain_docs(pages, h - 1024, fp)
        } else {
            page_docs(pages, p)
        }
    } else {
        Seq::empty()
    }
}

/// The posting-list index: a directory of 262,144 page numbers (one
/// per trigram, 0 meaning "no list yet") and a growable array of
/// pages, with the number of the next page to allocate.
pub struct Index {
    pub directory: Vec<u32>,
    pub pages: Vec<u64>,
    pub free_page: usize,
}

impl Index {
    /// Number of pages in the page array.
    pub open spec fn page_count(self) -> int {
        self.pages@.len() as int / 1024
    }

    /// The directory entry of trigram `t`.
    pub open spec fn dir_at(self, t: int) -> int {
        self.directory@[t] as int
    }

    /// The view of the directory.
    pub open spec fn dir(self) -> Seq<u32> {
        self.directory@
    }

    /// The view of the page array.
    pub open spec fn words(self) -> Seq<u64> {
        self.pages@
    }

    /// The next page to allocate.
    pub open spec fn next_free(self) -> int {
        self.free_page as int
    }

    /// The pages of trigram `t`'s chain.
    pub open spec fn chain_of(self, t: int) -> Seq<int> {
        if self.dir_at(t) == 0 {
            Seq::empty()
        } else {
            chain_seq(self.pages@, self.dir_at(t), self.free_page as int)
        }
    }

    /// The posting list of trigram `t`: every document identifier
    /// recorded for it, in insertion order.
    pub open spec fn postings(self, t: int) -> Seq<u64> {
        if self.dir_at(t) == 0 {
            Seq::empty()
        } else {
            chain_docs(self.pages@, self.dir_at(t), self.free_page as int)
        }
    }

    /// No page belongs to the chains of two distinct trigrams.
    pub open spec fn chains_disjoint(self, t1: int, t2: int) -> bool {
        forall|q: int| self.chain_of(t1).contains(q) ==> !self.chain_of(t2).contains(q)
    }

    /// The arrays have the shape of a store.
    pub open spec fn geometry_ok(self) -> bool {
        &&& self.directory@.len() == 262144
        &&& self.pages@.len() == self.page_count() * 1024
        &&& self.page_count() >= 2
        &&& 2 <= self.free_page as int <= self.page_count()
    }

    /// The store's invariant: valid geometry; every non-zero
    /// directory entry roots a well-formed chain below `free_page`;
    /// every page below `free_page` has been written and every page
    /// at or above it is untouched; chains of distinct trigrams share
    /// no page.
    pub open spec fn wf(self) -> bool {
        &&& self.geometry_ok()
        &&& forall|t: int|
            0 <= t < 262144 ==> (self.dir_at(t) == 0 || chain_ok(
                self.pages@,
                self.dir_at(t),
                self.free_page as int,
            ))
        &&& forall|p: int| 2 <= p < self.free_page as int ==> header_of(self.pages@, p) != 0
        &&& forall|p: int|
            self.free_page as int <= p < self.page_count() ==> header_of(self.pages@, p) == 0
        &&& forall|t1: int, t2: int|
            0 <= t1 < 262144 && 0 <= t2 < 262144 && t1 != t2 ==> self.chains_disjoint(t1, t2)
    }

    /// The directory entry of a trigram, as stored.
    pub fn directory_entry(&self, trigram: u32) -> (r: u32)
        requires
            trigram < 262144,
            self.geometry_ok(),
        ensures
            r as int == self.dir_at(trigram as int),
    {
        self.directory[trigram as usize]
    }

    /// One word of the page array.
    pub fn page_word(&self, i: usize) -> (r: u64)
        requires
            i < self.words().len(),
        ensures
            r == self.words()[i as int],
    {
        self.pages[i]
    }

    /// The number of the next page to allocate.
    pub fn free_page(&self) -> (r: usize)
        ensures
            r as int == self.next_free(),
    {
        self.free_page
    }

    /// The number of pages in the page array.
    pub fn num_pages(&self) -> (r: usize)
        requires
            self.geometry_ok(),
        ensures
            r as int == self.page_count(),
    {
        self.pages.len() / PAGE_SIZE
    }

    /// Gives the two arrays back, directory first, for persisting.
    pub fn into_parts(self) -> (r: (Vec<u32>, Vec<u64>))
        ensures
            r.0@ == self.dir(),
            r.1@ == self.words(),
    {
        (self.directory, self.pages)
    }

    /// Creates a fresh, empty store: a zeroed directory, two zeroed
    /// (reserved) pages, and page 2 as the first page to allocate.
    pub fn create() -> (r: Index)
        ensures
            r.wf(),
            r.next_free() == 2,
            r.page_count() == 2,
            forall|t: int| 0 <= t < 262144 ==> r.dir_at(t) == 0,
            forall|t: int| 0 <= t < 262144 ==> r.postings(t) == Seq::<u64>::empty(),
            forall|i: int| 0 <= i < r.words().len() ==> r.words()[i] == 0,
    {
        let directory = zeros_u32(DIR_LEN);
        let pages = zeros_u64(2 * PAGE_SIZE);
        let r = Index { directory, pages, free_page: 2 };
        proof {
            assert(r.page_count() == 2);
            assert forall|t: int| 0 <= t < 262144 implies r.dir_at(t) == 0 by {}
        }
        r
    }
}

fn zeros_u32(n: usize) -> (r: Vec<u32>)
    ensures
        r@.len() == n,
        forall|i: int| 0 <= i < n ==> r@[i] == 0,
{
    let mut r: Vec<u32> = Vec::new();
    while r.len() < n
        invariant
            r@.len() <= n,
            forall|i: int| 0 <= i < r@.len() ==> r@[i] == 0,
        decreases n - r@.len(),
    {
        r.push(0);
    }
    r
}

fn zeros_u64(n: usize) -> (r: Vec<u64>)
    ensures
        r@.len() == n,
        forall|i: int| 0 <= i < n ==> r@[i] == 0,
{
    let mut r: Vec<u64> = Vec::new();
    while r.len() < n
        invariant
            r@.len() <= n,
            forall|i: int| 0 <= i < r@.len() ==> r@[i] == 0,
        decreases n - r@.len(),
    {
        r.push(0);
    }
    r
}

/// Every page of a well-formed chain lies between its root and
/// `fp`; the chain is non-empty, starts at its root, and ends in a
/// page whose header is a count between 1 and 1023.
pub proof fn lemma_chain_elems(pages: Seq<u64>, p: int, fp: int)
    requires
        chain_ok(pages, p, fp),
    ensures
        chain_seq(pages, p, fp).len() >= 1,
        chain_seq(pages, p, fp)[0] == p,
        chain_seq(pages, p, fp).contains(p),
        forall|q: int| #[trigger] chain_seq(pages, p, fp).contains(q) ==> 2 <= p <= q < fp,
        1 <= header_of(pages, chain_seq(pages, p, fp).last()) <= 1023,
        chain_ok(pages, chain_seq(pages, p, fp).last(), fp),
    decreases fp - p,
{
    let c = chain_seq(pages, p, fp);
    let h = header_of(pages, p);
    assert(c.contains(p)) by {
        assert(c[0] == p);
    }
    if h >= 1024 {
        let q = h - 1024;
        lemma_chain_elems(pages, q, fp);
        let rest = chain_seq(pages, q, fp);
        assert(c == seq![p] + rest);
        assert(c.last() == rest.last()) by {
            assert(c[c.len() - 1] == rest[rest.len() - 1]);
        }
        assert forall|r: int| #[trigger] c.contains(r) implies 2 <= p <= r < fp by {
            let i = choose|i: int| 0 <= i < c.len() && c[i] == r;
            if i > 0 {
                assert(rest[i - 1] == r);
                assert(rest.contains(r));
            }
        }
    } else {
        assert(c == seq![p]);
        assert(c.last() == p);
        assert forall|r: int| #[trigger] c.contains(r) implies 2 <= p <= r < fp by {
            let i = choose|i: int| 0 <= i < c.len() && c[i] == r;
        }
    }
}

/// A chain only reads the words of its own pages: if a second word
/// array agrees on those, and the untouched bound only moves up, the
/// chain is unchanged.
pub proof fn lemma_chain_frame(pages1: Seq<u64>, pages2: Seq<u64>, p: int, fp: int, fp2: int)
    requires
        chain_ok(pages1, p, fp),
        fp <= fp2,
        fp * 1024 <= pages1.len(),
        fp * 1024 <= pages2.len(),
        forall|i: int|
            0 <= i < fp * 1024 && chain_seq(pages1, p, fp).contains(#[trigger] word_page(i))
                ==> pages2[i] == pages1[i],
    ensures
        chain_ok(pages2, p, fp2),
        chain_seq(pages2, p, fp2) == chain_seq(pages1, p, fp),
        chain_docs(pages2, p, fp2) == chain_docs(pages1, p, fp),
    decreases fp - p,
{
    let c1 = chain_seq(pages1, p, fp);
    lemma_chain_elems(pages1, p, fp);
    assert(c1.contains(p)) by {
        assert(c1[0] == p);
    }
    assert(pages2[p * 1024] == pages1[p * 1024]) by {
        assert(word_page(p * 1024) == p);
    }
    let h = header_of(pages1, p);
    assert(page_docs(pages2, p) =~= page_docs(pages1, p)) by {
        assert forall|i: int|
            0 <= i < count_of(h) implies page_docs(pages2, p)[i] == page_docs(pages1, p)[i] by {
            assert(word_page(p * 1024 + 1 + i) == p);
            assert(pages2[p * 1024 + 1 + i] == pages1[p * 1024 + 1 + i]);
        }
    }
    if h >= 1024 {
        let q = h - 1024;
        let rest = chain_seq(pages1, q, fp);
        assert(c1 == seq![p] + rest);
        assert forall|i: int|
            0 <= i < fp * 1024 && rest.contains(#[trigger] word_page(i)) implies pages2[i]
            == pages1[i] by {
            let r = word_page(i);
            let k = choose|k: int| 0 <= k < rest.len() && rest[k] == r;
            assert(c1[k + 1] == r);
            assert(c1.contains(r));
        }
        lemma_chain_frame(pages1, pages2, q, fp, fp2);
        assert(chain_seq(pages2, p, fp2) =~= c1);
        assert(chain_docs(pages2, p, fp2) =~= chain_docs(pages1, p, fp));
    } else {
        assert(chain_seq(pages2, p, fp2) =~= c1);
        assert(chain_docs(pages2, p, fp2) =~= chain_docs(pages1, p, fp));
    }
}

/// Appending into a tail page with room only changes that page's
/// header and one free slot: the chain keeps its pages, and its
/// documents gain `d` at the end.
pub proof fn lemma_append_tail(
    pages1: Seq<u64>,
    pages2: Seq<u64>,
    p: int,
    fp: int,
    tl: int,
    h: int,
    d: u64,
)
    requires
        chain_ok(pages1, p, fp),
        fp * 1024 <= pages1.len(),
        tl == chain_seq(pages1, p, fp).last(),
        h == header_of(pages1, tl),
        h <= 1022,
        pages2 == pages1.update(tl * 1024, (h + 1) as u64).update(tl * 1024 + 1 + h, d),
    ensures
        chain_ok(pages2, p, fp),
        chain_seq(pages2, p, fp) == chain_seq(pages1, p, fp),
        chain_docs(pages2, p, fp) == chain_docs(pages1, p, fp).push(d),
    decreases fp - p,
{
    lemma_chain_elems(pages1, p, fp);
    let c = chain_seq(pages1, p, fp);
    let hp = header_of(pages1, p);
    if hp < 1024 {
        assert(c =~= seq![p]);
        assert(tl == p);
        assert(1 <= h);
        assert(header_of(pages2, p) == h + 1);
        assert(chain_seq(pages2, p, fp) =~= c);
        let lhsd = page_docs(pages2, p);
        let rhsd = page_docs(pages1, p).push(d);
        assert(lhsd.len() == h + 1 && rhsd.len() == h + 1);
        assert forall|i: int| 0 <= i < h + 1 implies lhsd[i] == rhsd[i] by {
            if i < h {
                assert(lhsd[i] == pages2[p * 1024 + 1 + i]);
                assert(pages2[p * 1024 + 1 + i] == pages1[p * 1024 + 1 + i]);
            } else {
                assert(lhsd[i] == pages2[p * 1024 + 1 + h]);
                assert(pages2[p * 1024 + 1 + h] == d);
            }
        }
        assert(page_docs(pages2, p) =~= page_docs(pages1, p).push(d));
        assert(chain_docs(pages2, p, fp) == page_docs(pages2, p));
        assert(chain_docs(pages1, p, fp) == page_docs(pages1, p));
    } else {
        let q = hp - 1024;
        let rest = chain_seq(pages1, q, fp);
        lemma_chain_elems(pages1, q, fp);
        assert(c == seq![p] + rest);
        assert(c.last() == rest.last()) by {
            assert(c[c.len() - 1] == rest[rest.len() - 1]);
        }
        assert(rest.contains(rest.last())) by {
            assert(rest[rest.len() - 1] == rest.last());
        }
        assert(q <= tl);
        assert(p < tl);
        lemma_append_tail(pages1, pages2, q, fp, tl, h, d);
        assert(tl * 1024 >= p * 1024 + 1024);
        assert(pages2[p * 1024] == pages1[p * 1024]);
        assert(header_of(pages2, p) == hp);
        assert forall|i: int| 0 <= i < 1023 implies page_docs(pages2, p)[i] == page_docs(
            pages1,
            p,
        )[i] by {
            assert(page_docs(pages2, p)[i] == pages2[p * 1024 + 1 + i]);
            assert(pages2[p * 1024 + 1 + i] == pages1[p * 1024 + 1 + i]);
        }
        assert(page_docs(pages2, p) =~= page_docs(pages1, p));
        assert(chain_seq(pages2, p, fp) =~= c);
        assert(chain_docs(pages2, p, fp) =~= chain_docs(pages1, p, fp).push(d)) by {
            assert(chain_docs(pages2, p, fp) == page_docs(pages2, p) + chain_docs(pages2, q, fp));
            assert(chain_docs(pages1, p, fp) == page_docs(pages1, p) + chain_docs(pages1, q, fp));
        }
    }
}

/// Chaining a freshly allocated page behind a full tail rewrites the
/// old tail's header into a forward pointer and starts the new tail
/// with one document: the chain gains the new page, and its documents
/// gain `d` at the end.
pub proof fn lemma_new_tail(
    pages1: Seq<u64>,
    pages2: Seq<u64>,
    p: int,
    fp: int,
    fp2: int,
    tl: int,
    pn: int,
    d: u64,
)
    requires
        chain_ok(pages1, p, fp),
        fp * 1024 <= pages1.len(),
        fp2 * 1024 <= pages2.len(),
        tl == chain_seq(pages1, p, fp).last(),
        header_of(pages1, tl) == 1023,
        fp <= pn < fp2,
        forall|i: int|
            0 <= i < pages1.len() && i != tl * 1024 && !(pn * 1024 <= i < pn * 1024 + 1024)
                ==> pages2[i] == pages1[i],
        header_of(pages2, tl) == pn + 1024,
        header_of(pages2, pn) == 1,
        pages2[pn * 1024 + 1] == d,
    ensures
        chain_ok(pages2, p, fp2),
        chain_seq(pages2, p, fp2) == chain_seq(pages1, p, fp).push(pn),
        chain_docs(pages2, p, fp2) == chain_docs(pages1, p, fp).push(d),
    decreases fp - p,
{
    lemma_chain_elems(pages1, p, fp);
    let c = chain_seq(pages1, p, fp);
    let hp = header_of(pages1, p);
    if hp < 1024 {
        assert(c =~= seq![p]);
        assert(tl == p);
        assert(hp == 1023);
        assert(header_of(pages2, p) == pn + 1024);
        assert(chain_ok(pages2, pn, fp2));
        assert(chain_seq(pages2, pn, fp2) =~= seq![pn]);
        assert(chain_seq(pages2, p, fp2) =~= c.push(pn)) by {
            assert(chain_seq(pages2, p, fp2) == seq![p] + chain_seq(pages2, pn, fp2));
        }
        assert forall|i: int| 0 <= i < 1023 implies page_docs(pages2, p)[i] == page_docs(
            pages1,
            p,
        )[i] by {
            assert(page_docs(pages2, p)[i] == pages2[p * 1024 + 1 + i]);
            assert(p * 1024 + 1 + i != tl * 1024);
            assert(p * 1024 + 1 + i < fp * 1024 <= pn * 1024);
            assert(pages2[p * 1024 + 1 + i] == pages1[p * 1024 + 1 + i]);
        }
        assert(page_docs(pages2, p) =~= page_docs(pages1, p));
        assert(page_docs(pages2, pn) =~= seq![d]) by {
            assert(page_docs(pages2, pn).len() == 1);
            assert(page_docs(pages2, pn)[0] == pages2[pn * 1024 + 1]);
        }
        assert(chain_docs(pages2, p, fp2) == page_docs(pages2, p) + chain_docs(pages2, pn, fp2));
        assert(chain_docs(pages2, pn, fp2) == page_docs(pages2, pn));
        assert(chain_docs(pages1, p, fp) == page_docs(pages1, p));
        assert(chain_docs(pages2, p, fp2) =~= chain_docs(pages1, p, fp).push(d));
    } else {
        let q = hp - 1024;
        let rest = chain_seq(pages1, q, fp);
        lemma_chain_elems(pages1, q, fp);
        assert(c == seq![p] + rest);
        assert(c.last() == rest.last()) by {
            assert(c[c.len() - 1] == rest[rest.len() - 1]);
        }
        assert(rest.contains(rest.last())) by {
            assert(rest[rest.len() - 1] == rest.last());
        }
        assert(q <= tl);
        assert(p < tl);
        lemma_new_tail(pages1, pages2, q, fp, fp2, tl, pn, d);
        assert(tl * 1024 >= p * 1024 + 1024);
        assert(p * 1024 < pn * 1024);
        assert(pages2[p * 1024] == pages1[p * 1024]);
        assert(header_of(pages2, p) == hp);
        assert forall|i: int| 0 <= i < 1023 implies page_docs(pages2, p)[i] == page_docs(
            pages1,
            p,
        )[i] by {
            assert(page_docs(pages2, p)[i] == pages2[p * 1024 + 1 + i]);
            assert(p * 1024 + 1 + i < p * 1024 + 1024);
            assert(pages2[p * 1024 + 1 + i] == pages1[p * 1024 + 1 + i]);
        }
        assert(page_docs(pages2, p) =~= page_docs(pages1, p));
        assert(chain_seq(pages2, p, fp2) =~= c.push(pn)) by {
            assert(chain_seq(pages2, p, fp2) == seq![p] + chain_seq(pages2, q, fp2));
        }
        assert(chain_docs(pages2, p, fp2) =~= chain_docs(pages1, p, fp).push(d)) by {
            assert(chain_docs(pages2, p, fp2) == page_docs(pages2, p) + chain_docs(pages2, q, fp2));
            assert(chain_docs(pages1, p, fp) == page_docs(pages1, p) + chain_docs(pages1, q, fp));
        }
    }
}

impl Index {
    /// Hands out the next free page, growing the page array by
    /// `GROW_PAGES` pages when it would otherwise be exhausted.
    fn next_page(&mut self) -> (p: usize)
        requires
            old(self).geometry_ok(),
            old(self).words().len() as int + 102400 <= usize::MAX as int,
        ensures
            final(self).geometry_ok(),
            final(self).directory@ == old(self).directory@,
            p as int == old(self).next_free(),
            final(self).next_free() == p as int + 1,
            (p as int) < final(self).page_count(),
            final(self).pages@.len() >= old(self).pages@.len(),
            final(self).pages@.len() as int <= old(self).pages@.len() as int + 102400,
            forall|i: int|
                0 <= i < old(self).pages@.len() ==> final(self).pages@[i] == old(self).pages@[i],
            forall|i: int|
                old(self).pages@.len() <= i < final(self).pages@.len() ==> final(self).pages@[i]
                    == 0,
    {
        let ret = self.free_page;
        self.free_page = self.free_page + 1;
        if self.free_page >= self.pages.len() / PAGE_SIZE {
            let old_len = self.pages.len();
            let new_len = old_len + GROW_PAGES * PAGE_SIZE;
            while self.pages.len() < new_len
                invariant
                    old(self).words().len() <= self.pages@.len() <= new_len,
                    new_len == old(self).words().len() + 102400,
                    self.directory@ == old(self).dir(),
                    self.free_page == old(self).free_page + 1,
                    forall|i: int|
                        0 <= i < old(self).words().len() ==> self.pages@[i] == old(self).words()[i],
                    forall|i: int|
                        old(self).words().len() <= i < self.pages@.len() ==> self.pages@[i] == 0,
                decreases new_len - self.pages@.len(),
            {
                self.pages.push(0);
            }
        }
        ret
    }

    /// The first page of `trigram`'s chain, allocating one (and
    /// pointing the directory at it) if the trigram has no list yet.
    fn page_for(&mut self, trigram: u32) -> (page: usize)
        requires
            old(self).wf(),
            trigram < 262144,
            old(self).words().len() as int + 102400 <= usize::MAX as int,
            old(self).next_free() + 1 <= 0xFFFF_FFFF,
        ensures
            old(self).dir_at(trigram as int) != 0 ==> final(self).directory@ == old(self).directory@ && final(self).pages@ == old(self).pages@ && final(self).free_page == old(self).free_page && page as int == old(self).dir_at(trigram as int),
            old(self).dir_at(trigram as int) == 0 ==> {
                &&& page as int == old(self).next_free()
                &&& final(self).next_free() == page as int + 1
                &&& final(self).directory@ == old(self).directory@.update(
                    trigram as int,
                    page as u32,
                )
                &&& final(self).geometry_ok()
                &&& (page as int) < final(self).page_count()
                &&& final(self).pages@.len() >= old(self).pages@.len()
                &&& final(self).pages@.len() as int <= old(self).pages@.len() as int + 102400
                &&& forall|i: int|
                    0 <= i < old(self).pages@.len() ==> final(self).pages@[i] == old(self).pages@[i]
                &&& forall|i: int|
                    old(self).pages@.len() <= i < final(self).pages@.len() ==> final(self).pages@[i] == 0
            },
    {
        let page = self.directory[trigram as usize] as usize;
        if page != 0 {
            return page;
        }
        let found = self.next_page();
        self.directory[trigram as usize] = found as u32;
        found
    }

    /// Walks a chain to its tail page.
    fn find_tail(pages: &Vec<u64>, page: usize, fp: usize) -> (tl: usize)
        requires
            fp as int * 1024 <= pages@.len(),
            chain_ok(pages@, page as int, fp as int),
        ensures
            tl as int == chain_seq(pages@, page as int, fp as int).last(),
        decreases fp - page,
    {
        let n = pages.len();
        proof {
            assert(n == pages@.len());
            assert(2 <= page && page < fp);
            assert((page as int) * 1024 < (fp as int) * 1024) by (nonlinear_arith)
                requires
                    (page as int) < fp as int,
            ;
        }
        let h = pages[page * PAGE_SIZE];
        if h >= 1024 {
            let next = (h - 1024) as usize;
            let tl = Self::find_tail(pages, next, fp);
            proof {
                let c = chain_seq(pages@, page as int, fp as int);
                let rest = chain_seq(pages@, next as int, fp as int);
                lemma_chain_elems(pages@, next as int, fp as int);
                assert(c == seq![page as int] + rest);
                assert(c.last() == rest.last()) by {
                    assert(c[c.len() - 1] == rest[rest.len() - 1]);
                }
            }
            tl
        } else {
            page
        }
    }
}


impl Index {
    /// Appends `document` to the posting list of `trigram`: that list
    /// gains exactly this document at its end, every other posting
    /// list is unchanged, and the store's invariant is preserved.
    ///
    /// The two bounds in `requires` are machine limits: an append may
    /// allocate up to two pages (growing the word array by up to
    /// 102,400 words each time), and directory entries are 32-bit
    /// page numbers.
    pub fn append(&mut self, trigram: u32, document: u64)
        requires
            old(self).wf(),
            trigram < 262144,
            old(self).words().len() as int + 204800 <= usize::MAX as int,
            old(self).next_free() + 2 <= 0xFFFF_FFFF,
        ensures
            final(self).wf(),
            final(self).postings(trigram as int) == old(self).postings(trigram as int).push(
                document,
            ),
            forall|t: int|
                0 <= t < 262144 && t != trigram as int ==> final(self).postings(t) == old(self).postings(t),
            forall|t: int|
                0 <= t < 262144 && t != trigram as int ==> final(self).dir_at(t) == old(self).dir_at(t),
            final(self).words().len() as int <= old(self).words().len() as int + 204800,
            old(self).next_free() <= final(self).next_free() <= old(self).next_free() + 2,
    {
        let ghost pre = *old(self);
        let ghost t = trigram as int;
        let ghost fp0 = pre.free_page as int;
        let was_empty = self.directory[trigram as usize] == 0;
        let root = self.page_for(trigram);
        let ghost s1 = *self;

        if was_empty {
            proof {
                assert(root as int == fp0);
                assert(fp0 * 1024 <= pre.pages@.len());
                assert((root as int) * 1024 + 1024 <= s1.page_count() * 1024);
                assert(header_of(s1.pages@, root as int) == 0) by {
                    if (root as int) * 1024 < pre.pages@.len() {
                        assert((root as int) < pre.page_count());
                        assert(header_of(pre.pages@, root as int) == 0);
                        assert(s1.pages@[(root as int) * 1024] == pre.pages@[(root as int)
                            * 1024]);
                    } else {
                        assert((root as int) * 1024 < s1.pages@.len());
                        assert(s1.pages@[(root as int) * 1024] == 0);
                    }
                }
            }
            self.pages[root * PAGE_SIZE] = 1;
            self.pages[root * PAGE_SIZE + 1] = document;
            proof {
                let post = self.pages@;
                let fp1 = self.free_page as int;
                assert(fp1 == fp0 + 1);
                assert(post == s1.pages@.update((root as int) * 1024, 1u64).update(
                    (root as int) * 1024 + 1,
                    document,
                ));
                assert(self.dir_at(t) == root as int) by {
                    assert(self.directory@[t] == pre.directory@.update(t, root as u32)[t]);
                }
                // the new chain is the single fresh page holding one document
                assert(header_of(post, root as int) == 1);
                assert(chain_ok(post, root as int, fp1));
                assert(chain_seq(post, root as int, fp1) =~= seq![root as int]);
                assert(page_docs(post, root as int) =~= seq![document]) by {
                    assert(page_docs(post, root as int).len() == 1);
                    assert(page_docs(post, root as int)[0] == post[(root as int) * 1024 + 1]);
                }
                assert(chain_docs(post, root as int, fp1) == page_docs(post, root as int));
                assert(self.postings(t) =~= pre.postings(t).push(document));
                // every other chain reads only its own, untouched pages
                assert forall|t2: int|
                    0 <= t2 < 262144 && t2 != t && pre.dir_at(t2) != 0 implies chain_ok(
                    post,
                    pre.dir_at(t2),
                    fp1,
                ) && chain_seq(post, pre.dir_at(t2), fp1) == chain_seq(pre.pages@, pre.dir_at(t2), fp0)
                    && chain_docs(post, pre.dir_at(t2), fp1) == chain_docs(
                    pre.pages@,
                    pre.dir_at(t2),
                    fp0,
                ) by {
                    let d2 = pre.dir_at(t2);
                    lemma_chain_elems(pre.pages@, d2, fp0);
                    assert forall|i: int|
                        0 <= i < fp0 * 1024 && chain_seq(pre.pages@, d2, fp0).contains(
                            #[trigger] word_page(i),
                        ) implies post[i] == pre.pages@[i] by {
                        let q = word_page(i);
                        assert(2 <= q < fp0);
                        lemma_word_page_mul(root as int, 0);
                        lemma_word_page_mul(root as int, 1);
                        assert(i != (root as int) * 1024);
                        assert(i != (root as int) * 1024 + 1);
                        assert(s1.pages@[i] == pre.pages@[i]);
                    }
                    lemma_chain_frame(pre.pages@, post, d2, fp0, fp1);
                }
                // directory entries of other trigrams are unchanged
                assert forall|t2: int| 0 <= t2 < 262144 && t2 != t implies self.dir_at(t2)
                    == pre.dir_at(t2) by {
                    assert(self.directory@[t2] == pre.directory@.update(t, root as u32)[t2]);
                }
                assert forall|t2: int|
                    0 <= t2 < 262144 && t2 != t implies self.postings(t2) == pre.postings(t2)
                    && self.chain_of(t2) == pre.chain_of(t2) by {}
                // headers below free_page are written, above untouched
                assert forall|p2: int| 2 <= p2 < fp1 implies header_of(post, p2) != 0 by {
                    lemma_word_page_mul(p2, 0);
                    lemma_word_page_mul(root as int, 0);
                    lemma_word_page_mul(root as int, 1);
                    if p2 != root as int {
                        assert(p2 * 1024 < fp0 * 1024);
                        assert(post[p2 * 1024] == s1.pages@[p2 * 1024]);
                        assert(s1.pages@[p2 * 1024] == pre.pages@[p2 * 1024]);
                        assert(header_of(pre.pages@, p2) != 0);
                    }
                }
                assert forall|p2: int|
                    fp1 <= p2 < self.page_count() implies header_of(post, p2) == 0 by {
                    lemma_word_page_mul(p2, 0);
                    lemma_word_page_mul(root as int, 0);
                    lemma_word_page_mul(root as int, 1);
                    assert(p2 * 1024 < s1.page_count() * 1024);
                    assert(post[p2 * 1024] == s1.pages@[p2 * 1024]);
                    if p2 * 1024 < pre.pages@.len() {
                        assert(s1.pages@[p2 * 1024] == pre.pages@[p2 * 1024]);
                        assert(fp0 <= p2 && p2 < pre.page_count());
                        assert(header_of(pre.pages@, p2) == 0);
                    } else {
                        assert(s1.pages@[p2 * 1024] == 0);
                    }
                }
                // chains of distinct trigrams still share no page
                assert forall|t1: int, t2: int|
                    0 <= t1 < 262144 && 0 <= t2 < 262144 && t1 != t2 implies self.chains_disjoint(
                    t1,
                    t2,
                ) by {
                    assert forall|q: int| self.chain_of(t1).contains(q) implies !self.chain_of(
                        t2,
                    ).contains(q) by {
                        if t1 == t {
                            assert(self.chain_of(t1) =~= seq![root as int]);
                            let k = choose|k: int|
                                0 <= k < self.chain_of(t1).len() && self.chain_of(t1)[k] == q;
                            assert(q == root as int);
                            if pre.dir_at(t2) != 0 {
                                assert(self.chain_of(t2) == pre.chain_of(t2));
                                lemma_chain_elems(pre.pages@, pre.dir_at(t2), fp0);
                                if self.chain_of(t2).contains(q) {
                                    assert(chain_seq(pre.pages@, pre.dir_at(t2), fp0).contains(q));
                                    assert(q < fp0);
                                }
                            } else {
                                assert(self.dir_at(t2) == pre.dir_at(t2));
                                assert(self.chain_of(t2) =~= Seq::<int>::empty());
                            }
                        } else if t2 == t {
                            assert(self.chain_of(t2) =~= seq![root as int]);
                            if pre.dir_at(t1) != 0 {
                                assert(self.chain_of(t1) == pre.chain_of(t1));
                                lemma_chain_elems(pre.pages@, pre.dir_at(t1), fp0);
                                assert(chain_seq(pre.pages@, pre.dir_at(t1), fp0).contains(q));
                                assert(q < fp0);
                                assert(!self.chain_of(t2).contains(q)) by {
                                    if self.chain_of(t2).contains(q) {
                                        let k2 = choose|k2: int|
                                            0 <= k2 < self.chain_of(t2).len() && self.chain_of(
                                                t2,
                                            )[k2] == q;
                                        assert(q == root as int);
                                    }
                                }
                            } else {
                                assert(self.dir_at(t1) == pre.dir_at(t1));
                                assert(self.chain_of(t1) =~= Seq::<int>::empty());
                            }
                        } else {
                            assert(self.chain_of(t1) == pre.chain_of(t1));
                            assert(self.chain_of(t2) == pre.chain_of(t2));
                            assert(pre.chains_disjoint(t1, t2));
                            assert(pre.chain_of(t1).contains(q));
                        }
                    }
                }
                assert forall|t3: int|
                    0 <= t3 < 262144 && self.dir_at(t3) != 0 implies chain_ok(
                    self.pages@,
                    self.dir_at(t3),
                    self.free_page as int,
                ) by {
                    if t3 == t {
                        assert(chain_ok(post, root as int, fp1));
                    } else {
                        assert(self.dir_at(t3) == pre.dir_at(t3));
                        assert(chain_ok(post, pre.dir_at(t3), fp1));
                    }
                }
                assert(self.wf());
            }
        } else {
            proof {
                assert(self.directory@ == pre.directory@ && self.pages@ == pre.pages@
                    && self.next_free() == fp0);
                assert(chain_ok(pre.pages@, root as int, fp0));
                assert(fp0 * 1024 <= pre.pages@.len());
            }
            let fp = self.free_page;
            let tl = Index::find_tail(&self.pages, root, fp);
            proof {
                lemma_chain_elems(pre.pages@, root as int, fp0);
                let c = chain_seq(pre.pages@, root as int, fp0);
                assert(c.contains(c.last())) by {
                    assert(c[c.len() - 1] == c.last());
                }
                assert(2 <= tl as int && (tl as int) < fp0);
                assert((tl as int) * 1024 + 1024 <= fp0 * 1024);
            }
            let h = self.pages[tl * PAGE_SIZE];
            proof {
                assert(1 <= h <= 1023);
            }
            if h == 1023 {
                let pn = self.next_page();
                let ghost s2 = *self;
                proof {
                    assert(pn as int == fp0);
                    assert((pn as int) * 1024 + 1024 <= s2.page_count() * 1024);
                }
                self.pages[tl * PAGE_SIZE] = pn as u64 + 1024;
                self.pages[pn * PAGE_SIZE] = 1;
                self.pages[pn * PAGE_SIZE + 1] = document;
                proof {
                    let post = self.pages@;
                    let fp2 = self.free_page as int;
                    assert(fp2 == fp0 + 1);
                    let a = (tl as int) * 1024;
                    let b = (pn as int) * 1024;
                    assert(post == s2.pages@.update(a, (pn as u64 + 1024) as u64).update(
                        b,
                        1u64,
                    ).update(b + 1, document));
                    assert(a < b);
                    assert(header_of(post, tl as int) == pn as int + 1024);
                    assert(header_of(post, pn as int) == 1);
                    assert(post[b + 1] == document);
                    assert(fp2 * 1024 <= post.len());
                    assert forall|i: int|
                        0 <= i < pre.pages@.len() && i != a && !(b <= i < b + 1024)
                            implies post[i] == pre.pages@[i] by {
                        assert(s2.pages@[i] == pre.pages@[i]);
                    }
                    lemma_new_tail(
                        pre.pages@,
                        post,
                        root as int,
                        fp0,
                        fp2,
                        tl as int,
                        pn as int,
                        document,
                    );
                    assert(self.postings(t) == pre.postings(t).push(document));
                    // other chains
                    assert forall|t2: int|
                        0 <= t2 < 262144 && t2 != t && pre.dir_at(t2) != 0 implies chain_ok(
                        post,
                        pre.dir_at(t2),
                        fp2,
                    ) && chain_seq(post, pre.dir_at(t2), fp2) == chain_seq(
                        pre.pages@,
                        pre.dir_at(t2),
                        fp0,
                    ) && chain_docs(post, pre.dir_at(t2), fp2) == chain_docs(
                        pre.pages@,
                        pre.dir_at(t2),
                        fp0,
                    ) by {
                        let d2 = pre.dir_at(t2);
                        lemma_chain_elems(pre.pages@, d2, fp0);
                        assert(pre.chains_disjoint(t, t2));
                        assert(pre.chain_of(t).contains(tl as int)) by {
                            let c = chain_seq(pre.pages@, root as int, fp0);
                            assert(c[c.len() - 1] == c.last());
                        }
                        assert forall|i: int|
                            0 <= i < fp0 * 1024 && chain_seq(pre.pages@, d2, fp0).contains(
                                #[trigger] word_page(i),
                            ) implies post[i] == pre.pages@[i] by {
                            let q = word_page(i);
                            assert(2 <= q < fp0);
                            assert(q != tl as int);
                            lemma_word_page_mul(tl as int, 0);
                            lemma_word_page_mul(pn as int, 0);
                            lemma_word_page_mul(pn as int, 1);
                            assert(i != a);
                            assert(!(b <= i < b + 1024)) by {
                                if b <= i < b + 1024 {
                                    lemma_word_page_mul(pn as int, i - b);
                                    assert(q == pn as int);
                                }
                            }
                        }
                        lemma_chain_frame(pre.pages@, post, d2, fp0, fp2);
                    }
                    assert forall|t2: int|
                        0 <= t2 < 262144 && t2 != t implies self.postings(t2) == pre.postings(t2)
                        && self.chain_of(t2) == pre.chain_of(t2) by {}
                    // headers
                    assert forall|p2: int| 2 <= p2 < fp2 implies header_of(post, p2) != 0 by {
                        lemma_word_page_mul(p2, 0);
                        lemma_word_page_mul(tl as int, 0);
                        lemma_word_page_mul(pn as int, 0);
                        lemma_word_page_mul(pn as int, 1);
                        if p2 != tl as int && p2 != pn as int {
                            assert(p2 * 1024 < fp0 * 1024);
                            assert(post[p2 * 1024] == s2.pages@[p2 * 1024]);
                            assert(s2.pages@[p2 * 1024] == pre.pages@[p2 * 1024]);
                            assert(header_of(pre.pages@, p2) != 0);
                        }
                    }
                    assert forall|p2: int|
                        fp2 <= p2 < self.page_count() implies header_of(post, p2) == 0 by {
                        lemma_word_page_mul(p2, 0);
                        lemma_word_page_mul(tl as int, 0);
                        lemma_word_page_mul(pn as int, 0);
                        lemma_word_page_mul(pn as int, 1);
                        assert(p2 * 1024 < s2.page_count() * 1024);
                        assert(post[p2 * 1024] == s2.pages@[p2 * 1024]);
                        if p2 * 1024 < pre.pages@.len() {
                            assert(s2.pages@[p2 * 1024] == pre.pages@[p2 * 1024]);
                            assert(fp0 <= p2 && p2 < pre.page_count());
                            assert(header_of(pre.pages@, p2) == 0);
                        } else {
                            assert(s2.pages@[p2 * 1024] == 0);
                        }
                    }
                    // disjointness
                    assert forall|t1: int, t2: int|
                        0 <= t1 < 262144 && 0 <= t2 < 262144 && t1 != t2
                            implies self.chains_disjoint(t1, t2) by {
                        assert forall|q: int| self.chain_of(t1).contains(q)
                            implies !self.chain_of(t2).contains(q) by {
                            let oldc = chain_seq(pre.pages@, root as int, fp0);
                            assert(pre.chain_of(t) == oldc);
                            lemma_chain_elems(pre.pages@, root as int, fp0);
                            if t1 == t {
                                assert(self.chain_of(t) == oldc.push(pn as int));
                                if pre.dir_at(t2) != 0 {
                                    assert(self.chain_of(t2) == pre.chain_of(t2));
                                    lemma_chain_elems(pre.pages@, pre.dir_at(t2), fp0);
                                    if self.chain_of(t2).contains(q) {
                                        assert(chain_seq(pre.pages@, pre.dir_at(t2), fp0).contains(
                                            q,
                                        ));
                                        assert(q < fp0);
                                        assert(q != pn as int);
                                        assert(oldc.contains(q)) by {
                                            let k = choose|k: int|
                                                0 <= k < oldc.push(pn as int).len() && oldc.push(
                                                    pn as int,
                                                )[k] == q;
                                            assert(oldc[k] == q);
                                        }
                                        assert(pre.chains_disjoint(t, t2));
                                        assert(pre.chain_of(t).contains(q));
                                        assert(false);
                                    }
                                } else {
                                    assert(self.dir_at(t2) == pre.dir_at(t2));
                                    assert(self.chain_of(t2) =~= Seq::<int>::empty());
                                }
                            } else if t2 == t {
                                assert(self.chain_of(t) == oldc.push(pn as int));
                                if pre.dir_at(t1) != 0 {
                                    assert(self.chain_of(t1) == pre.chain_of(t1));
                                    lemma_chain_elems(pre.pages@, pre.dir_at(t1), fp0);
                                    assert(chain_seq(pre.pages@, pre.dir_at(t1), fp0).contains(q));
                                    assert(q < fp0);
                                    assert(pre.chains_disjoint(t1, t));
                                    assert(pre.chain_of(t1).contains(q));
                                    assert(!oldc.contains(q));
                                    assert(!oldc.push(pn as int).contains(q)) by {
                                        if oldc.push(pn as int).contains(q) {
                                            let k = choose|k: int|
                                                0 <= k < oldc.push(pn as int).len() && oldc.push(
                                                    pn as int,
                                                )[k] == q;
                                            if k < oldc.len() {
                                                assert(oldc[k] == q);
                                                assert(oldc.contains(q));
                                            } else {
                                                assert(q == pn as int);
                                            }
                                        }
                                    }
                                } else {
                                    assert(self.dir_at(t1) == pre.dir_at(t1));
                                    assert(self.chain_of(t1) =~= Seq::<int>::empty());
                                }
                            } else {
                                assert(self.chain_of(t1) == pre.chain_of(t1));
                                assert(self.chain_of(t2) == pre.chain_of(t2));
                                assert(pre.chains_disjoint(t1, t2));
                                assert(pre.chain_of(t1).contains(q));
                            }
                        }
                    }
                    assert forall|t3: int|
                        0 <= t3 < 262144 && self.dir_at(t3) != 0 implies chain_ok(
                        self.pages@,
                        self.dir_at(t3),
                        self.free_page as int,
                    ) by {
                        if t3 == t {
                            assert(chain_ok(post, root as int, fp2));
                        } else {
                            assert(self.dir_at(t3) == pre.dir_at(t3));
                            assert(chain_ok(post, pre.dir_at(t3), fp2));
                        }
                    }
                    assert(self.wf());
                }
            } else {
                proof {
                    assert((tl as int) * 1024 + 1 + (h as int) < fp0 * 1024);
                }
                self.pages[tl * PAGE_SIZE] = h + 1;
                self.pages[tl * PAGE_SIZE + 1 + (h as usize)] = document;
                proof {
                    let post = self.pages@;
                    let a = (tl as int) * 1024;
                    assert(post == pre.pages@.update(a, (h + 1) as u64).update(
                        a + 1 + h as int,
                        document,
                    ));
                    assert((h as int + 1) as u64 == h + 1);
                    lemma_append_tail(
                        pre.pages@,
                        post,
                        root as int,
                        fp0,
                        tl as int,
                        h as int,
                        document,
                    );
                    assert(header_of(post, tl as int) == h as int + 1) by {
                        assert(post[a] == (h + 1) as u64);
                    }
                    assert(self.postings(t) == pre.postings(t).push(document));
                    assert forall|t2: int|
                        0 <= t2 < 262144 && t2 != t && pre.dir_at(t2) != 0 implies chain_ok(
                        post,
                        pre.dir_at(t2),
                        fp0,
                    ) && chain_seq(post, pre.dir_at(t2), fp0) == chain_seq(
                        pre.pages@,
                        pre.dir_at(t2),
                        fp0,
                    ) && chain_docs(post, pre.dir_at(t2), fp0) == chain_docs(
                        pre.pages@,
                        pre.dir_at(t2),
                        fp0,
                    ) by {
                        let d2 = pre.dir_at(t2);
                        lemma_chain_elems(pre.pages@, d2, fp0);
                        assert(pre.chains_disjoint(t, t2));
                        assert(pre.chain_of(t).contains(tl as int)) by {
                            let c = chain_seq(pre.pages@, root as int, fp0);
                            assert(c[c.len() - 1] == c.last());
                        }
                        assert forall|i: int|
                            0 <= i < fp0 * 1024 && chain_seq(pre.pages@, d2, fp0).contains(
                                #[trigger] word_page(i),
                            ) implies post[i] == pre.pages@[i] by {
                            let q = word_page(i);
                            assert(q != tl as int);
                            lemma_word_page_mul(tl as int, 0);
                            lemma_word_page_mul(tl as int, 1 + h as int);
                            assert(i != a);
                            assert(i != a + 1 + (h as int));
                        }
                        lemma_chain_frame(pre.pages@, post, d2, fp0, fp0);
                    }
                    assert forall|t2: int|
                        0 <= t2 < 262144 && t2 != t implies self.postings(t2) == pre.postings(t2)
                        && self.chain_of(t2) == pre.chain_of(t2) by {}
                    assert forall|p2: int|
                        2 <= p2 < fp0 implies header_of(post, p2) != 0 by {
                        lemma_word_page_mul(p2, 0);
                        lemma_word_page_mul(tl as int, 0);
                        lemma_word_page_mul(tl as int, 1 + h as int);
                        if p2 != tl as int {
                            assert(post[p2 * 1024] == pre.pages@[p2 * 1024]);
                            assert(header_of(pre.pages@, p2) != 0);
                        }
                    }
                    assert forall|p2: int|
                        fp0 <= p2 < self.page_count() implies header_of(post, p2) == 0 by {
                        lemma_word_page_mul(p2, 0);
                        lemma_word_page_mul(tl as int, 0);
                        lemma_word_page_mul(tl as int, 1 + h as int);
                        assert(post[p2 * 1024] == pre.pages@[p2 * 1024]);
                        assert(header_of(pre.pages@, p2) == 0);
                    }
                    assert(self.chain_of(t) == pre.chain_of(t)) by {
                        assert(self.dir_at(t) == root as int);
                    }
                    assert forall|t1: int, t2: int|
                        0 <= t1 < 262144 && 0 <= t2 < 262144 && t1 != t2
                            implies self.chains_disjoint(t1, t2) by {
                        assert forall|q: int| self.chain_of(t1).contains(q)
                            implies !self.chain_of(t2).contains(q) by {
                            assert(self.chain_of(t1) == pre.chain_of(t1));
                            assert(self.chain_of(t2) == pre.chain_of(t2));
                            assert(pre.chains_disjoint(t1, t2));
                            assert(pre.chain_of(t1).contains(q));
                        }
                    }
                    assert forall|t3: int|
                        0 <= t3 < 262144 && self.dir_at(t3) != 0 implies chain_ok(
                        self.pages@,
                        self.dir_at(t3),
                        self.free_page as int,
                    ) by {
                        if t3 == t {
                            assert(chain_ok(post, root as int, fp0));
                        } else {
                            assert(self.dir_at(t3) == pre.dir_at(t3));
                            assert(chain_ok(post, pre.dir_at(t3), fp0));
                        }
                    }
                    assert(self.wf());
                }
            }
        }
    }
}

/// Along a chain, every page but the last carries a forward pointer
/// to the next page, and the document count of the whole chain is
/// 1023 per full page plus the tail's header.
pub proof fn lemma_chain_structure(pages: Seq<u64>, p: int, fp: int)
    requires
        chain_ok(pages, p, fp),
    ensures
        forall|i: int|
            0 <= i < chain_seq(pages, p, fp).len() - 1 ==> header_of(
                pages,
                #[trigger] chain_seq(pages, p, fp)[i],
            ) == chain_seq(pages, p, fp)[i + 1] + 1024,
        forall|i: int, j: int|
            0 <= i < j < chain_seq(pages, p, fp).len() ==> chain_seq(pages, p, fp)[i] < chain_seq(
                pages,
                p,
                fp,
            )[j],
        chain_docs(pages, p, fp).len() == (chain_seq(pages, p, fp).len() - 1) * 1023 + header_of(
            pages,
            chain_seq(pages, p, fp).last(),
        ),
    decreases fp - p,
{
    lemma_chain_elems(pages, p, fp);
    let c = chain_seq(pages, p, fp);
    let hp = header_of(pages, p);
    if hp >= 1024 {
        let q = hp - 1024;
        let rest = chain_seq(pages, q, fp);
        lemma_chain_elems(pages, q, fp);
        lemma_chain_structure(pages, q, fp);
        assert(c == seq![p] + rest);
        assert(c.last() == rest.last()) by {
            assert(c[c.len() - 1] == rest[rest.len() - 1]);
        }
        assert forall|i: int| 0 <= i < c.len() - 1 implies header_of(pages, #[trigger] c[i]) == c[i
            + 1] + 1024 by {
            if i == 0 {
                assert(c[0] == p && c[1] == rest[0] && rest[0] == q);
            } else {
                assert(c[i] == rest[i - 1] && c[i + 1] == rest[i]);
            }
        }
        assert forall|i: int, j: int| 0 <= i < j < c.len() implies c[i] < c[j] by {
            if i == 0 {
                assert(c[j] == rest[j - 1]);
                assert(rest.contains(rest[j - 1])) by {
                    assert(rest[j - 1] == rest[j - 1]);
                }
            } else {
                assert(c[i] == rest[i - 1] && c[j] == rest[j - 1]);
            }
        }
        assert(chain_docs(pages, p, fp).len() == 1023 + chain_docs(pages, q, fp).len());
        assert((rest.len() - 1) * 1023 + 1023 == (c.len() - 1) * 1023) by (nonlinear_arith)
            requires
                c.len() == rest.len() + 1,
        ;
    } else {
        assert(c =~= seq![p]);
    }
}

impl Index {
    /// Chain soundness: in a well-formed store, every non-empty chain
    /// consists of pages whose numbers strictly increase; all but the
    /// last page carry the next page's number plus 1024 in their
    /// header; the last page's header is a count between 1 and 1023;
    /// and the chain holds 1023 documents per full page plus that
    /// count.
    pub proof fn lemma_chain_soundness(self, t: int)
        requires
            self.wf(),
            0 <= t < 262144,
            self.dir_at(t) != 0,
        ensures
            self.chain_of(t).len() >= 1,
            self.chain_of(t)[0] == self.dir_at(t),
            forall|i: int|
                0 <= i < self.chain_of(t).len() - 1 ==> header_of(
                    self.words(),
                    #[trigger] self.chain_of(t)[i],
                ) == self.chain_of(t)[i + 1] + 1024,
            forall|i: int, j: int|
                0 <= i < j < self.chain_of(t).len() ==> self.chain_of(t)[i] < self.chain_of(t)[j],
            1 <= header_of(self.words(), self.chain_of(t).last()) <= 1023,
            self.postings(t).len() == (self.chain_of(t).len() - 1) * 1023 + header_of(
                self.words(),
                self.chain_of(t).last(),
            ),
    {
        lemma_chain_elems(self.pages@, self.dir_at(t), self.free_page as int);
        lemma_chain_structure(self.pages@, self.dir_at(t), self.free_page as int);
    }

    /// Reads the whole posting list of a trigram by walking its
    /// chain.
    pub fn posting_list(&self, trigram: u32) -> (r: Vec<u64>)
        requires
            self.wf(),
            trigram < 262144,
        ensures
            r@ == self.postings(trigram as int),
    {
        let root = self.directory[trigram as usize];
        if root == 0 {
            return Vec::new();
        }
        proof {
            assert(self.dir_at(trigram as int) == root as int);
            assert(chain_ok(self.pages@, root as int, self.free_page as int));
            assert((self.free_page as int) * 1024 <= self.pages@.len());
        }
        Index::collect_chain(&self.pages, root as usize, self.free_page)
    }

    /// Collects the documents of the chain starting at `page`.
    fn collect_chain(pages: &Vec<u64>, page: usize, fp: usize) -> (r: Vec<u64>)
        requires
            (fp as int) * 1024 <= pages@.len(),
            chain_ok(pages@, page as int, fp as int),
        ensures
            r@ == chain_docs(pages@, page as int, fp as int),
        decreases fp - page,
    {
        let n = pages.len();
        proof {
            assert(n == pages@.len());
            assert(2 <= page && page < fp);
            assert((page as int) * 1024 + 1024 <= (fp as int) * 1024) by (nonlinear_arith)
                requires
                    (page as int) + 1 <= fp as int,
            ;
        }
        let h = pages[page * PAGE_SIZE];
        let count: usize = if h >= 1024 {
            1023
        } else {
            h as usize
        };
        let mut r: Vec<u64> = Vec::new();
        let mut i: usize = 0;
        while i < count
            invariant
                n == pages@.len(),
                count == count_of(header_of(pages@, page as int)),
                count <= 1023,
                (page as int) * 1024 + 1024 <= pages@.len(),
                0 <= i <= count,
                r@.len() == i,
                forall|j: int| 0 <= j < i ==> r@[j] == pages@[(page as int) * 1024 + 1 + j],
            decreases count - i,
        {
            r.push(pages[page * PAGE_SIZE + 1 + i]);
            i = i + 1;
        }
        proof {
            assert(r@ =~= page_docs(pages@, page as int));
        }
        if h >= 1024 {
            let mut rest = Index::collect_chain(pages, (h - 1024) as usize, fp);
            let ghost rg = rest@;
            r.append(&mut rest);
            proof {
                assert(r@ == page_docs(pages@, page as int) + rg);
            }
            r
        } else {
            r
        }
    }

    /// Appends `document` into the posting list of every trigram in
    /// the set, in increasing trigram order: each of those lists
    /// gains exactly this document at its end, and every other list
    /// is unchanged.
    ///
    /// The two bounds in `requires` are machine limits covering the
    /// worst case of one append per trigram in the set.
    pub fn append_trigrams(&mut self, trigrams: &TrigramSet, document: u64)
        requires
            old(self).wf(),
            forall|v: int| elems(*trigrams).contains(v) ==> 0 <= v < 262144,
            old(self).words().len() as int + 53687091200 <= usize::MAX as int,
            old(self).next_free() + 524290 <= 0xFFFF_FFFF,
        ensures
            final(self).wf(),
            forall|t: int|
                0 <= t < 262144 && elems(*trigrams).contains(t) ==> final(self).postings(t) == old(
                    self,
                ).postings(t).push(document),
            forall|t: int|
                0 <= t < 262144 && !elems(*trigrams).contains(t) ==> final(self).postings(t)
                    == old(self).postings(t),
    {
        let ghost pre = *old(self);
        let v = trigrams.to_vec();
        proof {
            if v@.len() > 262144 {
                lemma_ascending_lower_bound(v@, 262144);
                assert(elems(*trigrams).contains(v@[262144] as int));
            }
        }
        let mut i: usize = 0;
        while i < v.len()
            invariant
                self.wf(),
                forall|a: int, b: int| 0 <= a < b < v@.len() ==> v@[a] < v@[b],
                forall|a: int|
                    0 <= a < v@.len() ==> elems(*trigrams).contains(#[trigger] v@[a] as int),
                forall|w: int| elems(*trigrams).contains(w) ==> 0 <= w < 262144,
                v@.len() <= 262144,
                0 <= i <= v@.len(),
                self.words().len() as int <= pre.words().len() as int + i * 204800,
                pre.words().len() as int + 53687091200 <= usize::MAX as int,
                self.next_free() <= pre.next_free() + 2 * i,
                pre.next_free() + 524290 <= 0xFFFF_FFFF,
                forall|t2: int|
                    0 <= t2 < 262144 && processed(v@, i as int, t2) ==> self.postings(t2)
                        == pre.postings(t2).push(document),
                forall|t2: int|
                    0 <= t2 < 262144 && !processed(v@, i as int, t2) ==> self.postings(t2)
                        == pre.postings(t2),
            decreases v@.len() - i,
        {
            let tv = v[i];
            proof {
                assert(elems(*trigrams).contains(v@[i as int] as int));
                assert((tv as int) < 262144);
                assert(i * 204800 <= 262144 * 204800) by (nonlinear_arith)
                    requires
                        0 <= i <= 262144,
                ;
                assert(!processed(v@, i as int, tv as int)) by {
                    if processed(v@, i as int, tv as int) {
                        let j = choose|j: int| 0 <= j < i && v@[j] as int == tv as int;
                        assert(v@[j] < v@[i as int]);
                    }
                }
            }
            let ghost before = *self;
            self.append(tv as u32, document);
            proof {
                assert forall|t2: int|
                    0 <= t2 < 262144 && processed(v@, i as int + 1, t2) implies self.postings(t2)
                    == pre.postings(t2).push(document) by {
                    let j = choose|j: int| 0 <= j < i + 1 && v@[j] as int == t2;
                    if j < i {
                        assert(processed(v@, i as int, t2));
                        assert(t2 != tv as int);
                        assert(self.postings(t2) == before.postings(t2));
                    } else {
                        assert(t2 == tv as int);
                        assert(before.postings(t2) == pre.postings(t2));
                    }
                }
                assert forall|t2: int|
                    0 <= t2 < 262144 && !processed(v@, i as int + 1, t2) implies self.postings(t2)
                    == pre.postings(t2) by {
                    assert(!processed(v@, i as int, t2)) by {
                        if processed(v@, i as int, t2) {
                            let j = choose|j: int| 0 <= j < i && v@[j] as int == t2;
                            assert(0 <= j < i + 1 && v@[j] as int == t2);
                        }
                    }
                    assert(t2 != tv as int) by {
                        if t2 == tv as int {
                            assert((i as int) < i + 1 && v@[i as int] as int == t2);
                        }
                    }
                }
            }
            i = i + 1;
        }
        proof {
            assert forall|t2: int|
                0 <= t2 < 262144 && elems(*trigrams).contains(t2) implies self.postings(t2)
                == pre.postings(t2).push(document) by {
                let a = choose|a: int| 0 <= a < v@.len() && #[trigger] v@[a] as int == t2;
                assert(processed(v@, v@.len() as int, t2));
            }
            assert forall|t2: int|
                0 <= t2 < 262144 && !elems(*trigrams).contains(t2) implies self.postings(t2)
                == pre.postings(t2) by {
                assert(!processed(v@, v@.len() as int, t2)) by {
                    if processed(v@, v@.len() as int, t2) {
                        let j = choose|j: int| 0 <= j < v@.len() && v@[j] as int == t2;
                        assert(elems(*trigrams).contains(v@[j] as int));
                    }
                }
            }
        }
    }
}

/// Whether one of the first `k` entries of `v` is the trigram `t`.
spec fn processed(v: Seq<usize>, k: int, t: int) -> bool {
    exists|j: int| 0 <= j < k && v[j] as int == t
}

/// In a strictly ascending sequence, the entry at position `i` is at
/// least `i`.
proof fn lemma_ascending_lower_bound(v: Seq<usize>, i: int)
    requires
        forall|a: int, b: int| 0 <= a < b < v.len() ==> v[a] < v[b],
        0 <= i < v.len(),
    ensures
        v[i] as int >= i,
    decreases i,
{
    if i > 0 {
        lemma_ascending_lower_bound(v, i - 1);
        assert(v[i - 1] < v[i]);
    }
}

/// The next page to allocate, recovered by scanning page headers
/// downward from `from`: the scan stops at the first written page
/// (or at page 2, the lowest allocatable page).
pub open spec fn rec_fp(pages: Seq<u64>, from: int) -> int
    decreases from,
{
    if from <= 2 {
        2
    } else if header_of(pages, from - 1) != 0 {
        from
    } else {
        rec_fp(pages, from - 1)
    }
}

/// The free page recovered from a page array: the scan starts past
/// the last page.
pub open spec fn recovered_free_page(pages: Seq<u64>) -> int {
    rec_fp(pages, pages.len() as int / 1024)
}

/// Free-page recovery is sound: every page at or above the recovered
/// value is untouched, and the page just below it (if any beyond the
/// reserved ones) has been written.
pub proof fn lemma_rec_fp(pages: Seq<u64>, from: int)
    requires
        2 <= from,
    ensures
        2 <= rec_fp(pages, from) <= from,
        forall|p: int| rec_fp(pages, from) <= p < from ==> header_of(pages, p) == 0,
        rec_fp(pages, from) > 2 ==> header_of(pages, rec_fp(pages, from) - 1) != 0,
    decreases from,
{
    if from > 2 && header_of(pages, from - 1) == 0 {
        lemma_rec_fp(pages, from - 1);
    }
}

proof fn lemma_rec_fp_exact(pages: Seq<u64>, from: int, f: int)
    requires
        2 <= f <= from,
        forall|p: int| f <= p < from ==> header_of(pages, p) == 0,
        f > 2 ==> header_of(pages, f - 1) != 0,
    ensures
        rec_fp(pages, from) == f,
    decreases from,
{
    if from > f {
        lemma_rec_fp_exact(pages, from - 1, f);
    }
}

/// Free-page recovery is exact: re-scanning a well-formed store's
/// headers yields its free page, the high-water mark of written
/// pages plus one.
pub proof fn lemma_recovery_exact(idx: Index)
    requires
        idx.wf(),
    ensures
        recovered_free_page(idx.words()) == idx.next_free(),
{
    lemma_rec_fp_exact(idx.pages@, idx.page_count(), idx.next_free());
}

/// Whether the arrays handed to `open` have the shape of a store.
pub open spec fn valid_geometry(dir: Seq<u32>, pages: Seq<u64>) -> bool {
    &&& dir.len() == 262144
    &&& pages.len() == (pages.len() as int / 1024) * 1024
    &&& pages.len() as int / 1024 >= 2
}

/// Whether page `q` belongs to the chain of trigram `t`.
pub open spec fn chain_in(dir: Seq<u32>, pages: Seq<u64>, fp: int, t: int, q: int) -> bool {
    chain_seq(pages, dir[t] as int, fp).contains(q)
}

/// Whether the chains of trigrams `t1` and `t2` share no page.
pub open spec fn image_disjoint(dir: Seq<u32>, pages: Seq<u64>, fp: int, t1: int, t2: int) -> bool {
    forall|q: int| chain_in(dir, pages, fp, t1, q) ==> !chain_in(dir, pages, fp, t2, q)
}

/// Whether one of the first `k` directory entries owns page `q`.
pub open spec fn seen_by(dir: Seq<u32>, pages: Seq<u64>, fp: int, k: int, q: int) -> bool {
    exists|t2: int| 0 <= t2 < k && dir[t2] != 0 && #[trigger] chain_in(dir, pages, fp, t2, q)
}

/// Whether the contents of the arrays satisfy the store's
/// invariants, with the free page recovered from the headers.
pub open spec fn valid_content(dir: Seq<u32>, pages: Seq<u64>) -> bool {
    let fp = recovered_free_page(pages);
    &&& forall|t: int|
        0 <= t < 262144 ==> (dir[t] == 0 || chain_ok(pages, #[trigger] dir[t] as int, fp))
    &&& forall|p: int| 2 <= p < fp ==> header_of(pages, p) != 0
    &&& forall|t1: int, t2: int|
        0 <= t1 < 262144 && 0 <= t2 < 262144 && t1 != t2 && dir[t1] != 0 && dir[t2] != 0
            ==> image_disjoint(dir, pages, fp, t1, t2)
}

fn falses(n: usize) -> (r: Vec<bool>)
    ensures
        r@.len() == n,
        forall|i: int| 0 <= i < n ==> r@[i] == false,
{
    let mut r: Vec<bool> = Vec::new();
    while r.len() < n
        invariant
            r@.len() <= n,
            forall|i: int| 0 <= i < r@.len() ==> r@[i] == false,
        decreases n - r@.len(),
    {
        r.push(false);
    }
    r
}

impl Index {
    /// Decides whether a well-formed chain starts at `page`.
    fn check_chain(pages: &Vec<u64>, page: usize, fp: usize) -> (b: bool)
        requires
            (fp as int) * 1024 <= pages@.len(),
        ensures
            b == chain_ok(pages@, page as int, fp as int),
        decreases fp - page,
    {
        if page < 2 || page >= fp {
            return false;
        }
        let n = pages.len();
        proof {
            assert(n == pages@.len());
            assert((page as int) * 1024 + 1024 <= (fp as int) * 1024) by (nonlinear_arith)
                requires
                    (page as int) + 1 <= fp as int,
            ;
        }
        let h = pages[page * PAGE_SIZE];
        if h >= 1024 {
            let q = h - 1024;
            if q <= page as u64 || q >= fp as u64 {
                return false;
            }
            Index::check_chain(pages, q as usize, fp)
        } else {
            h >= 1
        }
    }

    /// Marks every page of the chain starting at `page` as seen;
    /// reports failure if one of them was seen already.
    fn mark_chain(pages: &Vec<u64>, seen: &mut Vec<bool>, page: usize, fp: usize) -> (ok: bool)
        requires
            (fp as int) * 1024 <= pages@.len(),
            chain_ok(pages@, page as int, fp as int),
            fp as int <= old(seen)@.len(),
        ensures
            final(seen)@.len() == old(seen)@.len(),
            ok ==> forall|q: int|
                0 <= q < final(seen)@.len() ==> final(seen)@[q] == (old(seen)@[q] || chain_seq(
                    pages@,
                    page as int,
                    fp as int,
                ).contains(q)),
            ok ==> forall|q: int|
                chain_seq(pages@, page as int, fp as int).contains(q) ==> !old(seen)@[q],
            !ok ==> exists|q: int|
                chain_seq(pages@, page as int, fp as int).contains(q) && old(seen)@[q],
        decreases fp - page,
    {
        proof {
            lemma_chain_elems(pages@, page as int, fp as int);
            assert(chain_seq(pages@, page as int, fp as int).contains(page as int)) by {
                assert(chain_seq(pages@, page as int, fp as int)[0] == page as int);
            }
        }
        if seen[page] {
            return false;
        }
        seen[page] = true;
        let n = pages.len();
        proof {
            assert(n == pages@.len());
            assert((page as int) * 1024 + 1024 <= (fp as int) * 1024) by (nonlinear_arith)
                requires
                    (page as int) + 1 <= fp as int,
            ;
        }
        let h = pages[page * PAGE_SIZE];
        if h >= 1024 {
            let ghost mid = seen@;
            let next = (h - 1024) as usize;
            let ok = Index::mark_chain(pages, seen, next, fp);
            proof {
                let c = chain_seq(pages@, page as int, fp as int);
                let rest = chain_seq(pages@, next as int, fp as int);
                lemma_chain_elems(pages@, next as int, fp as int);
                assert(c == seq![page as int] + rest);
                if ok {
                    assert forall|q: int| 0 <= q < seen@.len() implies seen@[q] == (old(seen)@[q]
                        || c.contains(q)) by {
                        assert(seen@[q] == (mid[q] || rest.contains(q)));
                        assert(c.contains(q) <==> (q == page as int || rest.contains(q))) by {
                            if c.contains(q) {
                                let k = choose|k: int| 0 <= k < c.len() && c[k] == q;
                                if k > 0 {
                                    assert(rest[k - 1] == q);
                                    assert(rest.contains(q));
                                }
                            }
                            if rest.contains(q) {
                                let k = choose|k: int| 0 <= k < rest.len() && rest[k] == q;
                                assert(c[k + 1] == q);
                                assert(c.contains(q));
                            }
                        }
                    }
                    assert forall|q: int| c.contains(q) implies !old(seen)@[q] by {
                        if q == page as int {
                        } else {
                            let k = choose|k: int| 0 <= k < c.len() && c[k] == q;
                            assert(rest[k - 1] == q);
                            assert(rest.contains(q));
                            assert(!mid[q]);
                            assert(2 <= q < fp as int);
                            assert(q != page as int);
                        }
                    }
                } else {
                    let q = choose|q: int| rest.contains(q) && mid[q];
                    assert(2 <= next as int <= q);
                    assert(q != page as int);
                    assert(old(seen)@[q]);
                    assert(c.contains(q)) by {
                        let k = choose|k: int| 0 <= k < rest.len() && rest[k] == q;
                        assert(c[k + 1] == q);
                    }
                }
            }
            ok
        } else {
            proof {
                assert(chain_seq(pages@, page as int, fp as int) =~= seq![page as int]);
                assert forall|q: int|
                    chain_seq(pages@, page as int, fp as int).contains(q) implies q
                    == page as int by {
                    let k = choose|k: int|
                        0 <= k < chain_seq(pages@, page as int, fp as int).len() && chain_seq(
                            pages@,
                            page as int,
                            fp as int,
                        )[k] == q;
                }
            }
            true
        }
    }

    /// Opens a store from the two arrays read back from disk.
    ///
    /// The free page is recovered by scanning headers downward from
    /// the end; then every chain is checked, defensively, against
    /// the store's invariants (a cycle is impossible in a valid
    /// image, since forward pointers must strictly increase).
    /// Returns `BadGeometry` or `Corrupt` exactly when the arrays
    /// fail those checks.
    pub fn open(directory: Vec<u32>, pages: Vec<u64>) -> (r: Result<Index, StoreError>)
        ensures
            r is Ok <==> valid_geometry(directory@, pages@) && valid_content(
                directory@,
                pages@,
            ),
            r is Ok ==> {
                let idx = r->Ok_0;
                &&& idx.wf()
                &&& idx.dir() == directory@
                &&& idx.words() == pages@
                &&& idx.next_free() == recovered_free_page(pages@)
            },
            r == Result::<Index, StoreError>::Err(StoreError::BadGeometry) <==> !valid_geometry(
                directory@,
                pages@,
            ),
            r == Result::<Index, StoreError>::Err(StoreError::Corrupt) <==> valid_geometry(
                directory@,
                pages@,
            ) && !valid_content(directory@, pages@),
    {
        if directory.len() != DIR_LEN {
            return Result::Err(StoreError::BadGeometry);
        }
        let n = pages.len();
        let pc = n / PAGE_SIZE;
        if n % PAGE_SIZE != 0 || pc < 2 {
            return Result::Err(StoreError::BadGeometry);
        }
        proof {
            assert(valid_geometry(directory@, pages@));
            assert(pc as int * 1024 == n);
        }
        let ghost fpr = recovered_free_page(pages@);
        let mut fp: usize = pc;
        loop
            invariant
                2 <= fp <= pc,
                n == pages@.len(),
                pc as int == pages@.len() as int / 1024,
                pc as int * 1024 == n,
                fpr == recovered_free_page(pages@),
                rec_fp(pages@, pc as int) == rec_fp(pages@, fp as int),
            ensures
                2 <= fp <= pc,
                fp as int == fpr,
            decreases fp,
        {
            if fp <= 2 {
                proof {
                    assert(fp == 2);
                    assert(rec_fp(pages@, 2int) == 2);
                }
                break ;
            }
            proof {
                assert(((fp - 1) as int) * 1024 + 1024 <= (pc as int) * 1024) by (nonlinear_arith)
                    requires
                        (fp - 1) as int + 1 <= pc as int,
                ;
            }
            let h = pages[(fp - 1) * PAGE_SIZE];
            if h != 0 {
                proof {
                    assert(header_of(pages@, fp as int - 1) != 0);
                    assert(rec_fp(pages@, fp as int) == fp as int);
                }
                break ;
            }
            proof {
                assert(header_of(pages@, fp as int - 1) == 0);
                assert(rec_fp(pages@, fp as int) == rec_fp(pages@, fp as int - 1));
            }
            fp = fp - 1;
        }
        proof {
            assert((fp as int) * 1024 <= n) by (nonlinear_arith)
                requires
                    fp as int <= pc as int,
                    (pc as int) * 1024 == n,
            ;
        }
        let mut p2: usize = 2;
        while p2 < fp
            invariant
                valid_geometry(directory@, pages@),
                2 <= p2 <= fp,
                fp as int == fpr,
                fpr == recovered_free_page(pages@),
                n == pages@.len(),
                (fp as int) * 1024 <= n,
                forall|q: int| 2 <= q < p2 ==> header_of(pages@, q) != 0,
            decreases fp - p2,
        {
            proof {
                assert((p2 as int) * 1024 + 1024 <= (fp as int) * 1024) by (nonlinear_arith)
                    requires
                        (p2 as int) + 1 <= fp as int,
                ;
            }
            let h = pages[p2 * PAGE_SIZE];
            if h == 0 {
                proof {
                    assert(!valid_content(directory@, pages@)) by {
                        assert((p2 as int) < fpr && header_of(pages@, p2 as int) == 0);
                    }
                }
                return Result::Err(StoreError::Corrupt);
            }
            p2 = p2 + 1;
        }
        let mut seen = falses(pc);
        let mut t: usize = 0;
        while t < DIR_LEN
            invariant
                valid_geometry(directory@, pages@),
                seen@.len() == pc,
                directory@.len() == 262144,
                n == pages@.len(),
                pc as int * 1024 == n,
                pc as int == pages@.len() as int / 1024,
                pc >= 2,
                2 <= fp <= pc,
                fp as int == fpr,
                fpr == recovered_free_page(pages@),
                (fp as int) * 1024 <= n,
                forall|q: int| 2 <= q < fp as int ==> header_of(pages@, q) != 0,
                0 <= t <= 262144,
                forall|t2: int|
                    0 <= t2 < t ==> (directory@[t2] == 0 || chain_ok(
                        pages@,
                        #[trigger] directory@[t2] as int,
                        fp as int,
                    )),
                forall|q: int|
                    0 <= q < pc ==> (seen@[q] <==> seen_by(
                        directory@,
                        pages@,
                        fp as int,
                        t as int,
                        q,
                    )),
                forall|t1: int, t2: int|
                    0 <= t1 < t && 0 <= t2 < t && t1 != t2 && directory@[t1] != 0
                        && directory@[t2] != 0 ==> image_disjoint(
                        directory@,
                        pages@,
                        fp as int,
                        t1,
                        t2,
                    ),
            decreases 262144 - t,
        {
            let root = directory[t];
            if root != 0 {
                if !Index::check_chain(&pages, root as usize, fp) {
                    proof {
                        assert(!valid_content(directory@, pages@)) by {
                            assert(directory@[t as int] != 0);
                            assert(!chain_ok(pages@, directory@[t as int] as int, fpr));
                        }
                    }
                    return Result::Err(StoreError::Corrupt);
                }
                let ghost seen_pre = seen@;
                if !Index::mark_chain(&pages, &mut seen, root as usize, fp) {
                    proof {
                        let c = chain_seq(pages@, root as int, fp as int);
                        let q = choose|q: int| c.contains(q) && seen_pre[q];
                        lemma_chain_elems(pages@, root as int, fp as int);
                        assert(0 <= q < pc);
                        assert(seen_by(directory@, pages@, fp as int, t as int, q));
                        let t2 = choose|t2: int|
                            0 <= t2 < t && directory@[t2] != 0 && #[trigger] chain_in(
                                directory@,
                                pages@,
                                fp as int,
                                t2,
                                q,
                            );
                        assert(!valid_content(directory@, pages@)) by {
                            assert(chain_in(directory@, pages@, fp as int, t2, q));
                            assert(chain_in(directory@, pages@, fp as int, t as int, q));
                            assert(!image_disjoint(directory@, pages@, fp as int, t2, t as int));
                            assert(t2 != t as int);
                        }
                    }
                    return Result::Err(StoreError::Corrupt);
                }
                proof {
                    let c = chain_seq(pages@, root as int, fp as int);
                    lemma_chain_elems(pages@, root as int, fp as int);
                    assert forall|q: int|
                        0 <= q < pc implies (seen@[q] <==> seen_by(
                        directory@,
                        pages@,
                        fp as int,
                        t as int + 1,
                        q,
                    )) by {
                        if seen@[q] {
                            if seen_pre[q] {
                                let t2 = choose|t2: int|
                                    0 <= t2 < t && directory@[t2] != 0 && #[trigger] chain_in(
                                        directory@,
                                        pages@,
                                        fp as int,
                                        t2,
                                        q,
                                    );
                                assert(chain_in(directory@, pages@, fp as int, t2, q));
                            } else {
                                assert(c.contains(q));
                                assert(chain_in(directory@, pages@, fp as int, t as int, q));
                            }
                        }
                        if seen_by(directory@, pages@, fp as int, t as int + 1, q) {
                            let t2 = choose|t2: int|
                                0 <= t2 < t + 1 && directory@[t2] != 0 && #[trigger] chain_in(
                                    directory@,
                                    pages@,
                                    fp as int,
                                    t2,
                                    q,
                                );
                            if t2 < t {
                                assert(seen_by(directory@, pages@, fp as int, t as int, q));
                                assert(seen_pre[q]);
                            } else {
                                assert(c.contains(q));
                            }
                        }
                    }
                    assert forall|t1: int, t2: int|
                        0 <= t1 < t + 1 && 0 <= t2 < t + 1 && t1 != t2 && directory@[t1] != 0
                            && directory@[t2] != 0 implies image_disjoint(
                        directory@,
                        pages@,
                        fp as int,
                        t1,
                        t2,
                    ) by {
                        assert forall|q: int|
                            chain_in(directory@, pages@, fp as int, t1, q) implies !chain_in(
                            directory@,
                            pages@,
                            fp as int,
                            t2,
                            q,
                        ) by {
                            if t1 == t as int {
                                // q is fresh: no earlier chain holds it
                                assert(c.contains(q));
                                assert(!seen_pre[q]);
                                if t2 < t as int && chain_in(directory@, pages@, fp as int, t2, q) {
                                    assert(seen_by(directory@, pages@, fp as int, t as int, q));
                                    assert(0 <= q < pc) by {
                                        lemma_chain_elems(
                                            pages@,
                                            directory@[t2] as int,
                                            fp as int,
                                        );
                                    }
                                    assert(seen_pre[q]);
                                }
                            } else if t2 == t as int {
                                if chain_in(directory@, pages@, fp as int, t2, q) {
                                    assert(c.contains(q));
                                    assert(!seen_pre[q]);
                                    assert(seen_by(directory@, pages@, fp as int, t as int, q));
                                    assert(0 <= q < pc) by {
                                        lemma_chain_elems(
                                            pages@,
                                            directory@[t1] as int,
                                            fp as int,
                                        );
                                    }
                                    assert(seen_pre[q]);
                                }
                            } else {
                                assert(image_disjoint(directory@, pages@, fp as int, t1, t2));
                            }
                        }
                    }
                }
            } else {
                proof {
                    assert forall|q: int|
                        0 <= q < pc implies (seen@[q] <==> seen_by(
                        directory@,
                        pages@,
                        fp as int,
                        t as int + 1,
                        q,
                    )) by {
                        if seen_by(directory@, pages@, fp as int, t as int + 1, q) {
                            let t2 = choose|t2: int|
                                0 <= t2 < t + 1 && directory@[t2] != 0 && #[trigger] chain_in(
                                    directory@,
                                    pages@,
                                    fp as int,
                                    t2,
                                    q,
                                );
                            assert(t2 < t);
                            assert(seen_by(directory@, pages@, fp as int, t as int, q));
                        }
                        if seen@[q] {
                            let t2 = choose|t2: int|
                                0 <= t2 < t && directory@[t2] != 0 && #[trigger] chain_in(
                                    directory@,
                                    pages@,
                                    fp as int,
                                    t2,
                                    q,
                                );
                            assert(chain_in(directory@, pages@, fp as int, t2, q));
                        }
                    }
                }
            }
            t = t + 1;
        }
        let idx = Index { directory, pages, free_page: fp };
        proof {
            lemma_rec_fp(idx.pages@, pc as int);
            assert(valid_content(idx.directory@, idx.pages@));
            assert forall|t1: int, t2: int|
                0 <= t1 < 262144 && 0 <= t2 < 262144 && t1 != t2 implies idx.chains_disjoint(
                t1,
                t2,
            ) by {
                assert forall|q: int| idx.chain_of(t1).contains(q) implies !idx.chain_of(
                    t2,
                ).contains(q) by {
                    assert(idx.dir_at(t1) != 0);
                    assert(chain_in(idx.directory@, idx.pages@, fp as int, t1, q));
                    if idx.dir_at(t2) != 0 {
                        assert(image_disjoint(idx.directory@, idx.pages@, fp as int, t1, t2));
                    }
                }
            }
            assert(idx.wf());
        }
        Result::Ok(idx)
    }
}

impl Index {
    /// Indexes one document: extracts the trigrams of its character
    /// stream and appends the document into the posting list of each.
    ///
    /// Succeeds exactly when the stream has no bad item (no decode
    /// failure and no NUL); then every trigram of the text gains this
    /// document at the end of its list and no other list changes.  On
    /// failure the store is untouched and the extractor's message is
    /// returned.
    pub fn index_document(&mut self, input: &Vec<crate::trigram::CharResult>, document: u64) -> (r:
        Result<(), String>)
        requires
            old(self).wf(),
            input@.len() < usize::MAX,
            old(self).words().len() as int + 53687091200 <= usize::MAX as int,
            old(self).next_free() + 524290 <= 0xFFFF_FFFF,
        ensures
            final(self).wf(),
            r is Ok <==> !crate::trigram::has_bad(input@),
            r is Ok ==> forall|t: int|
                0 <= t < 262144 && crate::trigram::tri_set(crate::trigram::oks(input@)).contains(t)
                    ==> final(self).postings(t) == old(self).postings(t).push(document),
            r is Ok ==> forall|t: int|
                0 <= t < 262144 && !crate::trigram::tri_set(crate::trigram::oks(input@)).contains(
                    t,
                ) ==> final(self).postings(t) == old(self).postings(t),
            r is Err ==> final(self).directory@ == old(self).directory@ && final(self).pages@
                == old(self).pages@ && final(self).free_page == old(self).free_page,
            r is Err ==> r->Err_0@ == crate::trigram::fail_msg(input@),
    {
        match crate::trigram::trigrams_for(input) {
            Result::Err(m) => Result::Err(m),
            Result::Ok(set) => {
                proof {
                    crate::trigram::lemma_tri_set_range(crate::trigram::oks(input@));
                }
                self.append_trigrams(&set, document);
                Result::Ok(())
            },
        }
    }
}

} // verus!
