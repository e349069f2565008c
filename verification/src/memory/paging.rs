//! Raw pages of memory and an allocator that hands them out.

pub mod local;

use vstd::prelude::*;

verus! {

/// Bytes in one page.
pub const PAGE_SIZE: usize = 4096;

/// A page of memory with a short identifying number.
pub struct Page {
    /// Only the low six bits of this number are meaningful.
    page_number: u8,
    /// The page's bytes.
    data: Vec<u8>,
}

impl Page {
    /// The page's identifying number.
    pub closed spec fn spec_number(&self) -> u8 {
        self.page_number
    }

    /// The page's bytes.
    pub closed spec fn spec_data(&self) -> Seq<u8> {
        self.data@
    }

    /// A zeroed page with a randomly drawn number.
    pub fn allocate() -> (p: Page)
        ensures
            p.spec_data() == Seq::<u8>::new(PAGE_SIZE as nat, |i: int| 0u8),
    {
        let mut data: Vec<u8> = Vec::new();
        let mut i: usize = 0;
        while i < PAGE_SIZE
            invariant
                0 <= i <= PAGE_SIZE,
                data@ =~= Seq::<u8>::new(i as nat, |k: int| 0u8),
            decreases PAGE_SIZE - i,
        {
            data.push(0);
            proof {
                assert(data@ =~= Seq::<u8>::new((i + 1) as nat, |k: int| 0u8));
            }
            i = i + 1;
        }
        let p = Page { page_number: rand::random(), data };
        proof {
            assert(p.spec_data() =~= Seq::<u8>::new(PAGE_SIZE as nat, |i: int| 0u8));
        }
        p
    }

    /// The page's identifying number.
    pub fn page_number(&self) -> (r: u8)
        ensures
            r == self.spec_number(),
    {
        self.page_number
    }

    /// One byte of the page.
    pub fn read(&self, i: usize) -> (r: u8)
        requires
            i < self.spec_data().len(),
        ensures
            r == self.spec_data()[i as int],
    {
        self.data[i]
    }

    /// Overwrites one byte of the page.
    pub fn write(&mut self, i: usize, v: u8)
        requires
            i < old(self).spec_data().len(),
        ensures
            final(self).spec_data() == old(self).spec_data().update(i as int, v),
            final(self).spec_number() == old(self).spec_number(),
    {
        self.data.set(i, v);
    }
}

/// A full page of zero bytes.
pub open spec fn zero_page() -> Seq<u8> {
    Seq::<u8>::new(PAGE_SIZE as nat, |i: int| 0u8)
}

/// Hands out whole pages and takes them back, zeroing returned pages.
pub struct PageAllocator {
    /// Every page, in use or free.
    pages: Vec<Page>,
    /// Positions of the free pages, each listed once.
    free_pages: Vec<usize>,
}

impl PageAllocator {
    /// The pages the allocator owns.
    pub closed spec fn spec_pages(&self) -> Seq<Page> {
        self.pages@
    }

    /// The free positions.
    pub closed spec fn spec_free(&self) -> Seq<usize> {
        self.free_pages@
    }

    /// Free positions are in range and listed at most once, every page
    /// holds a full page of bytes, and every free page is zeroed (fresh
    /// from construction, or zeroed on release).
    pub open spec fn wf(&self) -> bool {
        &&& forall|k: int|
            0 <= k < self.spec_free().len() ==> #[trigger] self.spec_free()[k]
                < self.spec_pages().len()
        &&& self.spec_free().no_duplicates()
        &&& forall|k: int|
            0 <= k < self.spec_pages().len() ==> (#[trigger] self.spec_pages()[k]).spec_data().len()
                == PAGE_SIZE
        &&& forall|k: int|
            0 <= k < self.spec_free().len() ==> self.spec_pages()[#[trigger] self.spec_free()[k]
                as int].spec_data() == zero_page()
    }

    /// An allocator owning `pages` fresh zeroed pages, all free.
    pub fn new(pages: usize) -> (a: Self)
        ensures
            a.wf(),
            a.spec_pages().len() == pages,
            a.spec_free().len() == pages,
            forall|k: int|
                0 <= k < pages ==> (#[trigger] a.spec_pages()[k]).spec_data() == zero_page(),
    {
        let mut page_list: Vec<Page> = Vec::new();
        let mut free_pages: Vec<usize> = Vec::new();
        let mut i: usize = 0;
        while i < pages
            invariant
                0 <= i <= pages,
                page_list@.len() == i,
                free_pages@.len() == i,
                forall|k: int| 0 <= k < i ==> #[trigger] free_pages@[k] == k,
                forall|k: int|
                    0 <= k < i ==> (#[trigger] page_list@[k]).spec_data() == zero_page(),
            decreases pages - i,
        {
            page_list.push(Page::allocate());
            free_pages.push(i);
            i = i + 1;
        }
        proof {
            assert(free_pages@.no_duplicates());
        }
        PageAllocator { pages: page_list, free_pages }
    }

    /// Takes a free page out and returns its position; a page must be
    /// free.
    pub fn acquire(&mut self) -> (r: usize)
        requires
            old(self).wf(),
            old(self).spec_free().len() > 0,
        ensures
            final(self).wf(),
            r == old(self).spec_free().last(),
            r < final(self).spec_pages().len(),
            final(self).spec_free() == old(self).spec_free().drop_last(),
            final(self).spec_pages() == old(self).spec_pages(),
            final(self).spec_pages()[r as int].spec_data() == zero_page(),
            !final(self).spec_free().contains(r),
    {
        let r = match self.free_pages.pop() {
            Some(p) => p,
            None => unreached(),
        };
        proof {
            assert(forall|k: int|
                0 <= k < self.free_pages@.len() ==> #[trigger] self.free_pages@[k] == old(
                    self,
                ).free_pages@[k]);
            assert(self.free_pages@.no_duplicates());
        }
        r
    }

    /// Returns a page: its bytes are zeroed and its position listed free
    /// again (a position already free is not listed twice).
    pub fn release(&mut self, page: usize)
        requires
            old(self).wf(),
            page < old(self).spec_pages().len(),
        ensures
            final(self).wf(),
            final(self).spec_pages().len() == old(self).spec_pages().len(),
            final(self).spec_pages()[page as int].spec_data() == Seq::<u8>::new(
                PAGE_SIZE as nat,
                |i: int| 0u8,
            ),
            final(self).spec_free().contains(page),
            forall|j: int|
                0 <= j < old(self).spec_pages().len() && j != page ==> final(self).spec_pages()[j]
                    == old(self).spec_pages()[j],
    {
        let ghost pre_free = self.free_pages@;
        let mut p = self.pages.remove(page);
        let mut i: usize = 0;
        while i < PAGE_SIZE
            invariant
                0 <= i <= PAGE_SIZE,
                p.spec_data().len() == PAGE_SIZE,
                forall|k: int| 0 <= k < i ==> #[trigger] p.spec_data()[k] == 0u8,
            decreases PAGE_SIZE - i,
        {
            p.write(i, 0);
            i = i + 1;
        }
        self.pages.insert(page, p);
        proof {
            assert(self.pages@ =~= old(self).pages@.update(page as int, p));
            assert(self.pages@[page as int].spec_data() =~= Seq::<u8>::new(
                PAGE_SIZE as nat,
                |i: int| 0u8,
            ));
        }
        if !self.contains_free(page) {
            self.free_pages.push(page);
            proof {
                assert(self.free_pages@[pre_free.len() as int] == page);
                assert forall|k1: int, k2: int|
                    0 <= k1 < k2 < self.free_pages@.len() implies self.free_pages@[k1]
                    != self.free_pages@[k2] by {
                    if k2 < pre_free.len() {
                        assert(pre_free.no_duplicates());
                    } else {
                        assert(self.free_pages@[k2] == page);
                        assert(self.free_pages@[k1] == pre_free[k1]);
                        assert(!pre_free.contains(page));
                    }
                }
                assert(self.free_pages@.no_duplicates());
            }
        }
        proof {
            assert forall|k: int|
                0 <= k < self.spec_pages().len() implies (#[trigger] self.spec_pages()[k]).spec_data().len()
                == PAGE_SIZE by {
                if k != page {
                    assert(self.spec_pages()[k] == old(self).spec_pages()[k]);
                    assert(old(self).spec_pages()[k].spec_data().len() == PAGE_SIZE);
                }
            }
            assert forall|k: int|
                0 <= k < self.spec_free().len() implies (#[trigger] self.spec_free()[k])
                < self.spec_pages().len() by {
                if k < pre_free.len() {
                    assert(self.spec_free()[k] == old(self).spec_free()[k]);
                }
            }
        }
    }

    /// Whether a position is already listed free.
    fn contains_free(&self, page: usize) -> (r: bool)
        ensures
            r == self.spec_free().contains(page),
    {
        let n = self.free_pages.len();
        let mut k: usize = 0;
        while k < n
            invariant
                0 <= k <= n,
                n == self.spec_free().len(),
                forall|i: int| 0 <= i < k ==> #[trigger] self.spec_free()[i] != page,
            decreases n - k,
        {
            if self.free_pages[k] == page {
                return true;
            }
            k = k + 1;
        }
        false
    }

    /// One byte of the page at `page`.
    pub fn read(&self, page: usize, i: usize) -> (r: u8)
        requires
            self.wf(),
            page < self.spec_pages().len(),
            i < PAGE_SIZE,
        ensures
            r == self.spec_pages()[page as int].spec_data()[i as int],
    {
        self.pages[page].read(i)
    }

    /// Overwrites one byte of the page at `page`, which must be an
    /// acquired page: free pages stay zeroed.
    pub fn write(&mut self, page: usize, i: usize, v: u8)
        requires
            old(self).wf(),
            page < old(self).spec_pages().len(),
            !old(self).spec_free().contains(page),
            i < PAGE_SIZE,
        ensures
            final(self).wf(),
            final(self).spec_pages().len() == old(self).spec_pages().len(),
            final(self).spec_pages()[page as int].spec_data() == old(self).spec_pages()[page
                as int].spec_data().update(i as int, v),
            final(self).spec_free() == old(self).spec_free(),
            forall|j: int|
                0 <= j < old(self).spec_pages().len() && j != page ==> final(self).spec_pages()[j]
                    == old(self).spec_pages()[j],
    {
        let mut p = self.pages.remove(page);
        p.write(i, v);
        self.pages.insert(page, p);
        proof {
            assert(self.pages@ =~= old(self).pages@.update(page as int, p));
            assert forall|k: int|
                0 <= k < self.spec_pages().len() implies (#[trigger] self.spec_pages()[k]).spec_data().len()
                == PAGE_SIZE by {
                if k != page {
                    assert(self.spec_pages()[k] == old(self).spec_pages()[k]);
                    assert(old(self).spec_pages()[k].spec_data().len() == PAGE_SIZE);
                }
            }
            assert forall|k: int|
                0 <= k < self.spec_free().len() implies (#[trigger] self.spec_free()[k])
                < self.spec_pages().len() && self.spec_pages()[self.spec_free()[k]
                as int].spec_data() == zero_page() by {
                assert(self.spec_free()[k] == old(self).spec_free()[k]);
                assert(old(self).spec_free().contains(old(self).spec_free()[k]));
                assert(self.spec_free()[k] != page);
                assert(self.spec_pages()[self.spec_free()[k] as int] == old(self).spec_pages()[
                    self.spec_free()[k] as int]);
            }
        }
    }
}

} // verus!
