use vstd::prelude::*;

use crate::PAGE_SIZE;

verus! {

/// A number of pages of linear memory.
#[derive(Clone, Copy, Debug, PartialEq, Eq, Structural)]
pub struct PageCount(pub usize);

/// Page count that a growth request answers with when it fails (all ones).
pub const ERROR_PAGE_COUNT: usize = usize::MAX;

impl PageCount {
    /// The same amount of memory in bytes.
    pub fn size_in_bytes(self) -> (r: usize)
        requires
            self.0 * PAGE_SIZE <= usize::MAX,
        ensures
            r == self.0 * PAGE_SIZE,
    {
        self.0 * PAGE_SIZE
    }
}

/// The page-growth primitive of the host: linear memory that only grows, by whole
/// pages, at its end.
pub trait MemoryGrower {
    /// Pages committed so far.
    spec fn page_count(&self) -> nat;

    /// Growth by `delta` pages is sure to succeed.
    spec fn can_grow(&self, delta: nat) -> bool;

    /// Asks for `delta` more pages. On success the previous page count comes back,
    /// which is the index of the first new page, and the new end of memory is still
    /// addressable; on failure `ERROR_PAGE_COUNT` comes back and nothing changes.
    /// Where `can_grow` holds, the request succeeds.
    fn memory_grow(&mut self, delta: PageCount) -> (r: PageCount)
        ensures
            old(self).can_grow(delta.0 as nat) ==> r.0 != ERROR_PAGE_COUNT,
            r.0 == ERROR_PAGE_COUNT ==> final(self).page_count() == old(self).page_count(),
            r.0 != ERROR_PAGE_COUNT ==> {
                &&& r.0 == old(self).page_count()
                &&& final(self).page_count() == old(self).page_count() + delta.0
                &&& final(self).page_count() * PAGE_SIZE <= usize::MAX
            },
    ;
}

/// Linear memory simulated over a reserved run of pages: growth succeeds while the
/// reservation lasts. The address of a byte is its offset from the first page.
pub struct BoundedGrower {
    used_pages: usize,
    max_pages: usize,
}

impl BoundedGrower {
    #[verifier::type_invariant]
    spec fn inv(self) -> bool {
        self.used_pages <= self.max_pages && self.max_pages * PAGE_SIZE <= usize::MAX
    }

    /// Pages reserved.
    pub closed spec fn capacity(&self) -> nat {
        self.max_pages as nat
    }

    /// A reservation of `max_pages` pages, none of them used yet.
    pub fn new(max_pages: usize) -> (r: Self)
        requires
            max_pages * PAGE_SIZE <= usize::MAX,
        ensures
            r.page_count() == 0,
            r.capacity() == max_pages,
    {
        BoundedGrower { used_pages: 0, max_pages }
    }

    /// Pages handed out so far.
    pub fn used_pages(&self) -> (r: usize)
        ensures
            r == self.page_count(),
    {
        self.used_pages
    }
}

impl MemoryGrower for BoundedGrower {
    closed spec fn page_count(&self) -> nat {
        self.used_pages as nat
    }

    /// Growth succeeds exactly while the reservation lasts.
    open spec fn can_grow(&self, delta: nat) -> bool {
        self.page_count() + delta <= self.capacity()
    }

    fn memory_grow(&mut self, delta: PageCount) -> (r: PageCount)
        ensures
            old(self).can_grow(delta.0 as nat) ==> r.0 != ERROR_PAGE_COUNT,
            r.0 != ERROR_PAGE_COUNT <==> old(self).page_count() + delta.0 <= old(self).capacity(),
            final(self).capacity() == old(self).capacity(),
            r.0 == ERROR_PAGE_COUNT ==> final(self).page_count() == old(self).page_count(),
            r.0 != ERROR_PAGE_COUNT ==> {
                &&& r.0 == old(self).page_count()
                &&& final(self).page_count() == old(self).page_count() + delta.0
                &&& final(self).page_count() * PAGE_SIZE <= usize::MAX
            },
    {
        proof {
            use_type_invariant(&*self);
        }
        if delta.0 <= self.max_pages - self.used_pages {
            let previous = self.used_pages;
            self.used_pages = self.used_pages + delta.0;
            PageCount(previous)
        } else {
            PageCount(ERROR_PAGE_COUNT)
        }
    }
}

} // verus!
