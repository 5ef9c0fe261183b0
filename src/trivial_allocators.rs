use vstd::prelude::*;

use crate::arith::{ceil_to, lemma_effective_align, lemma_floor_to, lemma_mod_trans, valid_align};
use crate::grower::{MemoryGrower, PageCount, ERROR_PAGE_COUNT};
use crate::PAGE_SIZE;

verus! {

/// Pages that hold `size` bytes.
pub open spec fn pages_spanning(size: int) -> int {
    (size + PAGE_SIZE - 1) / PAGE_SIZE as int
}

proof fn lemma_pages_spanning(size: int)
    requires
        0 <= size,
    ensures
        0 <= pages_spanning(size),
        size <= pages_spanning(size) * PAGE_SIZE,
        pages_spanning(size) * PAGE_SIZE < size + PAGE_SIZE,
{
    let v = size + PAGE_SIZE - 1;
    vstd::arithmetic::div_mod::lemma_fundamental_div_mod(v, PAGE_SIZE as int);
    vstd::arithmetic::div_mod::lemma_mod_bound(v, PAGE_SIZE as int);
    let q = v / PAGE_SIZE as int;
    assert(pages_spanning(size) == q);
    assert(q * PAGE_SIZE == PAGE_SIZE * q) by (nonlinear_arith);
    assert(q >= 0) by (nonlinear_arith)
        requires
            v >= 0,
            q == v / PAGE_SIZE as int,
    ;
}

/// A multiple of the page size is a multiple of every accepted alignment.
proof fn lemma_page_multiple_aligned(x: int, align: int)
    requires
        valid_align(align),
        x % PAGE_SIZE as int == 0,
    ensures
        align > 0,
        x % align == 0,
{
    lemma_effective_align(align);
    crate::arith::lemma_sizes();
    lemma_mod_trans(PAGE_SIZE as int, align, crate::arith::effective_align(align));
    lemma_mod_trans(x, align, PAGE_SIZE as int);
}

/// An allocator that refuses every request.
pub struct FailAllocator;

impl FailAllocator {
    /// Always fails.
    pub fn allocate(&self, _size: usize, _align: usize) -> (r: Option<usize>)
        ensures
            r is None,
    {
        None
    }

    /// Does nothing.
    pub fn dealloc(&self, _ptr: usize, _size: usize, _align: usize) {
    }
}

/// An allocator that hands out whole fresh pages for every request and never
/// reuses memory.
pub struct LeakingPageAllocator<G> {
    grower: G,
}

impl<G: MemoryGrower> LeakingPageAllocator<G> {
    /// Pages of linear memory committed so far.
    pub closed spec fn committed_pages(&self) -> nat {
        self.grower.page_count()
    }

    /// The grower is sure to grant `delta` more pages.
    pub closed spec fn can_grow(&self, delta: nat) -> bool {
        self.grower.can_grow(delta)
    }

    /// A page allocator drawing on `grower`.
    pub fn new(grower: G) -> (r: Self)
        ensures
            r.committed_pages() == grower.page_count(),
            forall|delta: nat| #[trigger] r.can_grow(delta) == grower.can_grow(delta),
    {
        LeakingPageAllocator { grower }
    }

    /// Grows memory by the pages that `size` bytes span and returns the start of the
    /// new pages; `None` when memory cannot grow.
    pub fn allocate(&mut self, size: usize, align: usize) -> (r: Option<usize>)
        requires
            valid_align(align as int),
            size <= isize::MAX,
        ensures
            match r {
                Some(a) => {
                    &&& a == old(self).committed_pages() * PAGE_SIZE
                    &&& final(self).committed_pages() == old(self).committed_pages()
                        + pages_spanning(size as int)
                    &&& a % align == 0
                    &&& a + size <= final(self).committed_pages() * PAGE_SIZE
                },
                None => final(self).committed_pages() == old(self).committed_pages(),
            },
            old(self).can_grow(pages_spanning(size as int) as nat) ==> r is Some,
    {
        let requested_pages = (size + PAGE_SIZE - 1) / PAGE_SIZE;
        let previous = self.grower.memory_grow(PageCount(requested_pages));
        if previous.0 == ERROR_PAGE_COUNT {
            return None;
        }
        proof {
            lemma_pages_spanning(size as int);
            assert(previous.0 * PAGE_SIZE <= (previous.0 + requested_pages) * PAGE_SIZE)
                by (nonlinear_arith);
            assert((previous.0 + requested_pages) * PAGE_SIZE == previous.0 * PAGE_SIZE
                + requested_pages * PAGE_SIZE) by (nonlinear_arith);
            vstd::arithmetic::div_mod::lemma_mod_multiples_basic(previous.0 as int, PAGE_SIZE as int);
            lemma_page_multiple_aligned(previous.0 * PAGE_SIZE, align as int);
        }
        Some(previous.size_in_bytes())
    }

    /// Does nothing: pages are never reused.
    pub fn dealloc(&self, _ptr: usize, _size: usize, _align: usize) {
    }
}

/// A bump allocator that never reuses memory. It hands out bytes from the current
/// run of pages and asks for more pages when a request does not fit; when another
/// user grew memory in between, it moves on to the new pages.
pub struct LeakingAllocator<G> {
    used: usize,
    size: usize,
    grower: G,
}

impl<G: MemoryGrower> LeakingAllocator<G> {
    /// End of the bytes handed out so far.
    pub closed spec fn used_bytes(&self) -> int {
        self.used as int
    }

    /// End of the run of pages the allocator draws from.
    pub closed spec fn size_bytes(&self) -> int {
        self.size as int
    }

    /// Pages of linear memory committed so far.
    pub closed spec fn committed_pages(&self) -> nat {
        self.grower.page_count()
    }

    /// The grower is sure to grant `delta` more pages.
    pub closed spec fn can_grow(&self, delta: nat) -> bool {
        self.grower.can_grow(delta)
    }

    /// The bump pointer stays inside a page-aligned run that memory holds.
    pub open spec fn wf(&self) -> bool {
        &&& 0 <= self.used_bytes() <= self.size_bytes()
        &&& self.size_bytes() % PAGE_SIZE as int == 0
        &&& self.size_bytes() <= self.committed_pages() * PAGE_SIZE
    }

    /// A bump allocator with nothing handed out yet, drawing on `grower`.
    pub fn new(grower: G) -> (r: Self)
        ensures
            r.wf(),
            r.used_bytes() == 0,
            r.size_bytes() == 0,
            r.committed_pages() == grower.page_count(),
            forall|delta: nat| #[trigger] r.can_grow(delta) == grower.can_grow(delta),
    {
        LeakingAllocator { used: 0, size: 0, grower }
    }

    /// Hands out `size` bytes aligned to `align` above everything handed out
    /// before; `None` when more memory is needed and cannot be had.
    pub fn allocate(&mut self, size: usize, align: usize) -> (r: Option<usize>)
        requires
            old(self).wf(),
            valid_align(align as int),
            size <= isize::MAX,
        ensures
            final(self).wf(),
            final(self).committed_pages() >= old(self).committed_pages(),
            old(self).can_grow(pages_spanning(size as int) as nat) ==> r is Some,
            ({
                let start = ceil_to(old(self).used_bytes(), align as int);
                let grows = start + size > old(self).size_bytes();
                let fresh = old(self).committed_pages() * PAGE_SIZE;
                match r {
                    Some(a) => {
                        &&& a % align == 0
                        &&& old(self).used_bytes() <= a
                        &&& final(self).used_bytes() == a + size
                        &&& !grows ==> a == start && final(self).size_bytes() == old(
                            self,
                        ).size_bytes() && final(self).committed_pages() == old(
                            self,
                        ).committed_pages()
                        &&& grows ==> {
                            &&& a == (if fresh == old(self).size_bytes() {
                                start
                            } else {
                                fresh
                            })
                            &&& final(self).committed_pages() == old(self).committed_pages()
                                + pages_spanning(size as int)
                            &&& final(self).size_bytes() == fresh + pages_spanning(size as int)
                                * PAGE_SIZE
                        }
                    },
                    None => {
                        &&& grows
                        &&& final(self).used_bytes() == start
                        &&& final(self).size_bytes() == old(self).size_bytes()
                        &&& final(self).committed_pages() == old(self).committed_pages()
                    },
                }
            }),
    {
        proof {
            lemma_page_multiple_aligned(self.size as int, align as int);
            crate::arith::lemma_ceil_to_least(self.used as int, align as int, self.size as int);
            lemma_floor_to(self.used as int, align as int);
            if self.used % align != 0 {
                crate::arith::lemma_mod_add_sub(
                    crate::arith::floor_to(self.used as int, align as int),
                    align as int,
                    align as int,
                );
                vstd::arithmetic::div_mod::lemma_mod_self_0(align as int);
                crate::arith::lemma_ceil_to_unique(
                    self.used as int,
                    align as int,
                    self.used + align - self.used % align,
                );
            } else {
                crate::arith::lemma_ceil_to_unique(self.used as int, align as int, self.used as int);
            }
        }
        let offset = self.used % align;
        if offset != 0 {
            self.used = self.used + (align - offset);
        }
        if size > self.size - self.used {
            // Ask for enough pages for this request alone, in case the new pages do
            // not follow the current run.
            let requested_pages = (size + PAGE_SIZE - 1) / PAGE_SIZE;
            let previous = self.grower.memory_grow(PageCount(requested_pages));
            if previous.0 == ERROR_PAGE_COUNT {
                return None;
            }
            proof {
                lemma_pages_spanning(size as int);
                assert(previous.0 * PAGE_SIZE <= (previous.0 + requested_pages) * PAGE_SIZE)
                    by (nonlinear_arith);
                assert((previous.0 + requested_pages) * PAGE_SIZE == previous.0 * PAGE_SIZE
                    + requested_pages * PAGE_SIZE) by (nonlinear_arith);
                vstd::arithmetic::div_mod::lemma_mod_multiples_basic(
                    previous.0 as int,
                    PAGE_SIZE as int,
                );
                vstd::arithmetic::div_mod::lemma_mod_multiples_basic(
                    (previous.0 + requested_pages) as int,
                    PAGE_SIZE as int,
                );
                lemma_page_multiple_aligned(previous.0 * PAGE_SIZE, align as int);
            }
            let previous_size = previous.size_in_bytes();
            if previous_size != self.size {
                // Someone else grew memory in between: start over in the new pages.
                self.used = previous_size;
            }
            self.size = previous_size + requested_pages * PAGE_SIZE;
        }
        let start = self.used;
        self.used = self.used + size;
        Some(start)
    }

    /// Does nothing: memory is never reused.
    pub fn dealloc(&self, _ptr: usize, _size: usize, _align: usize) {
    }
}

} // verus!
