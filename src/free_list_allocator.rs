use vstd::prelude::*;

use crate::arith::{
    ceil_to, effective_align, floor_to, full_size, full_size_spec, lemma_effective_align,
    lemma_floor_to_greatest, lemma_mod_trans, lemma_sizes, round_up, valid_align,
};
use crate::free_list::{
    apart_from, carve, carve_position, covers, end, find_fit, first_fit, fits, in_region,
    insert_region, lemma_apart_and_disjoint, lemma_single_region, lemma_total_bound, region_ok, total, within,
    FreeRegion,
};
use crate::grower::{MemoryGrower, PageCount, ERROR_PAGE_COUNT};
use crate::heap::{heap_ok, in_live, lemma_heap_extend, lemma_heap_give_back, lemma_heap_take, live_ok};
use crate::{NODE_SIZE, PAGE_SIZE};

verus! {

/// A single-threaded allocator that reclaims memory. Free regions are kept in a
/// list sorted by descending address and coalesced on every release; a request is
/// carved from the tail of the first region that can hold it; when none can, the
/// heap grows by whole pages.
pub struct FreeListAllocator<G> {
    free_list: Vec<FreeRegion>,
    grower: G,
    /// Live allocations: address to length in bytes.
    live: Ghost<Map<int, int>>,
    /// First byte of the heap: where memory stood when the allocator was made.
    heap_base: Ghost<int>,
}

/// Pages added to the heap for a request of `need` bytes.
pub open spec fn pages_for(need: int) -> int {
    ceil_to(need, PAGE_SIZE as int) / PAGE_SIZE as int
}

impl<G: MemoryGrower> FreeListAllocator<G> {
    /// The free list, highest address first.
    pub closed spec fn regions(&self) -> Seq<FreeRegion> {
        self.free_list@
    }

    /// Live allocations: address to length in bytes.
    pub closed spec fn live(&self) -> Map<int, int> {
        self.live@
    }

    /// First byte of the heap: the end of memory when the allocator was made.
    pub closed spec fn heap_start(&self) -> int {
        self.heap_base@
    }

    /// Pages of linear memory committed so far.
    pub closed spec fn committed_pages(&self) -> nat {
        self.grower.page_count()
    }

    /// The grower is sure to grant `delta` more pages.
    pub closed spec fn can_grow(&self, delta: nat) -> bool {
        self.grower.can_grow(delta)
    }

    /// One past the last byte of committed memory.
    pub open spec fn heap_end(&self) -> int {
        self.committed_pages() * PAGE_SIZE
    }

    /// The heap is split exactly between the free list and the live allocations.
    pub open spec fn wf(&self) -> bool {
        heap_ok(self.regions(), self.live(), self.heap_start(), self.heap_end())
    }

    /// An allocator with an empty free list over `grower`; its heap starts at the
    /// current end of memory.
    pub fn new(grower: G) -> (r: Self)
        ensures
            r.wf(),
            r.regions() == Seq::<FreeRegion>::empty(),
            r.live() == Map::<int, int>::empty(),
            r.committed_pages() == grower.page_count(),
            forall|delta: nat| #[trigger] r.can_grow(delta) == grower.can_grow(delta),
            r.heap_start() == r.heap_end(),
    {
        FreeListAllocator {
            free_list: Vec::new(),
            grower,
            live: Ghost(Map::empty()),
            heap_base: Ghost(grower.page_count() * PAGE_SIZE),
        }
    }

    /// A copy of the free list, highest address first.
    pub fn free_regions(&self) -> (r: Vec<FreeRegion>)
        ensures
            r@ == self.regions(),
    {
        let mut out: Vec<FreeRegion> = Vec::new();
        let mut i: usize = 0;
        while i < self.free_list.len()
            invariant
                i <= self.free_list@.len(),
                out@ == self.free_list@.subrange(0, i as int),
            decreases self.free_list@.len() - i,
        {
            out.push(self.free_list[i]);
            i = i + 1;
            assert(out@ =~= self.free_list@.subrange(0, i as int));
        }
        assert(self.free_list@.subrange(0, i as int) =~= self.free_list@);
        out
    }

    /// The page-growth primitive this allocator draws on.
    pub fn grower(&self) -> (r: &G)
        ensures
            r.page_count() == self.committed_pages(),
    {
        &self.grower
    }

    /// Takes the first region that fits, carves the request from its tail and
    /// records the new allocation.
    fn take(&mut self, need: usize, align: usize) -> (r: Option<usize>)
        requires
            old(self).wf(),
            need > 0,
            need % NODE_SIZE == 0,
            align > 0,
            align % NODE_SIZE == 0,
        ensures
            final(self).heap_start() == old(self).heap_start(),
            final(self).grower == old(self).grower,
            final(self).wf(),
            match r {
                Some(a) => {
                    &&& exists|k: int| #[trigger]
                        first_fit(old(self).regions(), need as int, align as int, k) && a
                            == carve_position(old(self).regions()[k], need as int, align as int)
                    &&& a % align == 0
                    &&& final(self).live() == old(self).live().insert(a as int, need as int)
                    &&& forall|x: int| #[trigger]
                        covers(final(self).regions(), x) <==> (covers(old(self).regions(), x) && !(a
                            <= x < a + need))
                },
                None => {
                    &&& forall|j: int|
                        0 <= j < old(self).regions().len() ==> !fits(
                            #[trigger] old(self).regions()[j],
                            need as int,
                            align as int,
                        )
                    &&& final(self).live() == old(self).live()
                    &&& final(self).regions() == old(self).regions()
                },
            },
    {
        match find_fit(&self.free_list, need, align) {
            Some(k) => {
                let ghost s = self.free_list@;
                let a = carve(&mut self.free_list, k, need, align);
                proof {
                    lemma_mod_trans(a as int, NODE_SIZE as int, align as int);
                    lemma_heap_take(
                        s,
                        self.free_list@,
                        self.live@,
                        self.heap_base@,
                        self.heap_end(),
                        k as int,
                        a as int,
                        need as int,
                    );
                }
                self.live = Ghost(self.live@.insert(a as int, need as int));
                Some(a)
            },
            None => None,
        }
    }

    /// Allocates `size` bytes aligned to `align`; `None` when the heap cannot grow.
    /// The free list afterwards is given by the bytes it frees, which determine a
    /// well-formed list (`lemma_canonical`).
    pub fn allocate(&mut self, size: usize, align: usize) -> (r: Option<usize>)
        requires
            old(self).wf(),
            valid_align(align as int),
            size <= isize::MAX,
        ensures
            final(self).wf(),
            final(self).heap_start() == old(self).heap_start(),
            final(self).committed_pages() >= old(self).committed_pages(),
            match r {
                Some(a) => {
                    &&& a % align == 0
                    &&& final(self).live() == old(self).live().insert(
                        a as int,
                        full_size_spec(size as int),
                    )
                    &&& forall|x: int| #[trigger]
                        covers(final(self).regions(), x) <==> ((covers(old(self).regions(), x)
                            || old(self).heap_end() <= x < final(self).heap_end()) && !(a <= x < a
                            + full_size_spec(size as int)))
                },
                None => {
                    &&& final(self).live() == old(self).live()
                    &&& final(self).regions() == old(self).regions()
                    &&& final(self).committed_pages() == old(self).committed_pages()
                    &&& forall|j: int|
                        0 <= j < old(self).regions().len() ==> !fits(
                            #[trigger] old(self).regions()[j],
                            full_size_spec(size as int),
                            effective_align(align as int),
                        )
                },
            },
            forall|k: int|
                #[trigger] first_fit(
                    old(self).regions(),
                    full_size_spec(size as int),
                    effective_align(align as int),
                    k,
                ) ==> {
                    &&& r == Some(
                        carve_position(
                            old(self).regions()[k],
                            full_size_spec(size as int),
                            effective_align(align as int),
                        ) as usize,
                    )
                    &&& final(self).committed_pages() == old(self).committed_pages()
                },
            (forall|j: int|
                0 <= j < old(self).regions().len() ==> !fits(
                    #[trigger] old(self).regions()[j],
                    full_size_spec(size as int),
                    effective_align(align as int),
                )) ==> (r is None || {
                &&& final(self).committed_pages() == old(self).committed_pages() + pages_for(
                    full_size_spec(size as int),
                )
                &&& r == Some(
                    floor_to(
                        final(self).heap_end() - full_size_spec(size as int),
                        effective_align(align as int),
                    ) as usize,
                )
            }),
            // Growth that the grower is sure to grant always ends in success.
            (forall|j: int|
                0 <= j < old(self).regions().len() ==> !fits(
                    #[trigger] old(self).regions()[j],
                    full_size_spec(size as int),
                    effective_align(align as int),
                )) && old(self).can_grow(pages_for(full_size_spec(size as int)) as nat) ==> r is Some,
    {
        proof {
            lemma_sizes();
            lemma_effective_align(align as int);
        }
        let need = full_size(size);
        let alignment = if align > NODE_SIZE {
            align
        } else {
            NODE_SIZE
        };
        let ghost s0 = self.free_list@;
        let ghost hi = self.heap_end();
        let first = self.take(need, alignment);
        if let Some(a) = first {
            proof {
                let k = choose|k: int| #[trigger]
                    first_fit(s0, need as int, alignment as int, k) && a == carve_position(
                        s0[k],
                        need as int,
                        alignment as int,
                    );
                lemma_mod_trans(a as int, align as int, alignment as int);
                assert forall|k2: int| #[trigger]
                    first_fit(s0, need as int, alignment as int, k2) implies k2 == k by {
                    if k2 < k {
                        assert(!fits(s0[k2], need as int, alignment as int));
                    } else if k < k2 {
                        assert(!fits(s0[k], need as int, alignment as int));
                    }
                }
            }
            return first;
        }
        // Nothing fits: grow the heap by enough pages, hand them to the free list
        // and carve from there.

        let requested_bytes = round_up(need, PAGE_SIZE);
        proof {
            vstd::arithmetic::div_mod::lemma_fundamental_div_mod(
                requested_bytes as int,
                PAGE_SIZE as int,
            );
            assert(requested_bytes / PAGE_SIZE == pages_for(need as int));
        }
        let ghost sure = self.can_grow(pages_for(need as int) as nat);
        let previous = self.grower.memory_grow(PageCount(requested_bytes / PAGE_SIZE));
        assert(sure ==> previous.0 != ERROR_PAGE_COUNT);
        if previous.0 == ERROR_PAGE_COUNT {
            return None;
        }
        proof {
            assert((previous.0 + requested_bytes / PAGE_SIZE) * PAGE_SIZE == previous.0 * PAGE_SIZE
                + (requested_bytes / PAGE_SIZE) * PAGE_SIZE) by (nonlinear_arith);
            assert(previous.0 * PAGE_SIZE <= (previous.0 + requested_bytes / PAGE_SIZE) * PAGE_SIZE)
                by (nonlinear_arith);
        }
        let base = previous.size_in_bytes();
        let ghost hi2 = self.heap_end();
        assert(base == hi);
        assert(hi2 == base + requested_bytes);
        proof {
            vstd::arithmetic::div_mod::lemma_mod_multiples_basic(previous.0 as int, PAGE_SIZE as int);
            lemma_mod_trans(base as int, NODE_SIZE as int, PAGE_SIZE as int);
            lemma_mod_trans(requested_bytes as int, NODE_SIZE as int, PAGE_SIZE as int);
            assert forall|i: int| 0 <= i < s0.len() implies end(#[trigger] s0[i]) <= base || base
                + requested_bytes <= s0[i].base by {
                assert(within(s0, self.heap_base@, hi));
            }
        }
        insert_region(&mut self.free_list, base, requested_bytes);
        let ghost s1 = self.free_list@;
        proof {
            lemma_heap_extend(s0, s1, self.live@, self.heap_base@, hi, hi2);
            // The top region now ends at the end of the heap and reaches down to
            // the old end, so the request fits there.
            assert(covers(s1, hi2 - 1));
            let t = choose|t: int| 0 <= t < s1.len() && in_region(#[trigger] s1[t], hi2 - 1);
            assert(end(s1[t]) <= hi2);
            if t > 0 {
                assert(end(s1[t]) < s1[0].base);
                assert(region_ok(s1[0]));
                assert(end(s1[0]) <= hi2);
            }
            assert(t == 0);
            if s1[0].base > base {
                let x = s1[0].base - 1;
                assert(covers(s1, x));
                let u = choose|u: int| 0 <= u < s1.len() && in_region(#[trigger] s1[u], x);
                if u > 0 {
                    assert(end(s1[u]) < s1[0].base);
                }
            }
            lemma_mod_trans(base as int, alignment as int, PAGE_SIZE as int);
            lemma_floor_to_greatest(hi2 - need, alignment as int, base as int);
            assert(fits(s1[0], need as int, alignment as int));
        }
        let second = self.take(need, alignment);
        proof {
            if let Some(a) = second {
                let k = choose|k: int| #[trigger]
                    first_fit(s1, need as int, alignment as int, k) && a == carve_position(
                        s1[k],
                        need as int,
                        alignment as int,
                    );
                if k > 0 {
                    assert(!fits(s1[0], need as int, alignment as int));
                }
                lemma_mod_trans(a as int, align as int, alignment as int);
            }
        }
        second
    }

    /// Returns the allocation at `ptr` of `size` bytes to the free list, merging it
    /// with the free regions it touches.
    pub fn dealloc(&mut self, ptr: usize, size: usize, align: usize)
        requires
            old(self).wf(),
            size <= isize::MAX,
            old(self).live().contains_key(ptr as int),
            old(self).live()[ptr as int] == full_size_spec(size as int),
        ensures
            final(self).wf(),
            final(self).heap_start() == old(self).heap_start(),
            final(self).committed_pages() == old(self).committed_pages(),
            final(self).live() == old(self).live().remove(ptr as int),
            forall|x: int| #[trigger]
                covers(final(self).regions(), x) <==> (covers(old(self).regions(), x) || ptr <= x
                    < ptr + full_size_spec(size as int)),
    {
        let need = full_size(size);
        let ghost s0 = self.free_list@;
        proof {
            assert(live_ok(ptr as int, need as int, self.heap_base@, self.heap_end()));
        }
        insert_region(&mut self.free_list, ptr, need);
        proof {
            lemma_heap_give_back(
                s0,
                self.free_list@,
                self.live@,
                self.heap_base@,
                self.heap_end(),
                ptr as int,
            );
        }
        self.live = Ghost(self.live@.remove(ptr as int));
    }
}

/// Every free region starts at a multiple of the header size.
pub proof fn lemma_regions_header_aligned<G: MemoryGrower>(a: &FreeListAllocator<G>)
    requires
        a.wf(),
    ensures
        forall|i: int| 0 <= i < a.regions().len() ==> (#[trigger] a.regions()[i]).base % NODE_SIZE == 0,
{
    assert forall|i: int| 0 <= i < a.regions().len() implies (#[trigger] a.regions()[i]).base % NODE_SIZE
        == 0 by {
        assert(region_ok(a.regions()[i]));
    }
}

/// The free list runs from the highest base address to the lowest, strictly.
pub proof fn lemma_regions_descending<G: MemoryGrower>(a: &FreeListAllocator<G>)
    requires
        a.wf(),
    ensures
        forall|i: int, j: int|
            0 <= i < j < a.regions().len() ==> (#[trigger] a.regions()[j]).base < (
            #[trigger] a.regions()[i]).base,
{
    assert forall|i: int, j: int| 0 <= i < j < a.regions().len() implies (
    #[trigger] a.regions()[j]).base < (#[trigger] a.regions()[i]).base by {
        assert(end(a.regions()[j]) < a.regions()[i].base);
    }
}

/// No free region ends where another begins: touching regions are always merged.
pub proof fn lemma_regions_not_adjacent<G: MemoryGrower>(a: &FreeListAllocator<G>)
    requires
        a.wf(),
    ensures
        forall|i: int, j: int|
            0 <= i < a.regions().len() && 0 <= j < a.regions().len() ==> end(
                #[trigger] a.regions()[i],
            ) != (#[trigger] a.regions()[j]).base,
{
    lemma_apart_and_disjoint(a.regions());
}

/// Two distinct free regions share no byte.
pub proof fn lemma_regions_disjoint<G: MemoryGrower>(a: &FreeListAllocator<G>)
    requires
        a.wf(),
    ensures
        forall|i: int, j: int|
            0 <= i < a.regions().len() && 0 <= j < a.regions().len() && i != j ==> end(
                #[trigger] a.regions()[i],
            ) <= (#[trigger] a.regions()[j]).base || end(a.regions()[j]) <= a.regions()[i].base,
{
    lemma_apart_and_disjoint(a.regions());
}

/// Every free region lies inside the committed heap.
pub proof fn lemma_regions_in_heap<G: MemoryGrower>(a: &FreeListAllocator<G>)
    requires
        a.wf(),
    ensures
        forall|i: int|
            0 <= i < a.regions().len() ==> a.heap_start() <= (#[trigger] a.regions()[i]).base && end(
                a.regions()[i],
            ) <= a.heap_end(),
        0 <= a.heap_start() <= a.heap_end(),
{
}

/// The free regions add up to no more than the committed heap.
pub proof fn lemma_free_total_bounded<G: MemoryGrower>(a: &FreeListAllocator<G>)
    requires
        a.wf(),
    ensures
        total(a.regions()) <= a.heap_end() - a.heap_start(),
        total(a.regions()) <= a.heap_end(),
{
    lemma_total_bound(a.regions(), a.heap_start(), a.heap_end());
}

/// Once every allocation has been released, whatever the order of the allocations
/// and releases, the free list is one region spanning the whole heap (or empty, when
/// the heap never grew).
pub proof fn lemma_round_trip<G: MemoryGrower>(a: &FreeListAllocator<G>)
    requires
        a.wf(),
        a.live() == Map::<int, int>::empty(),
    ensures
        a.heap_start() == a.heap_end() ==> a.regions().len() == 0,
        a.heap_start() < a.heap_end() ==> a.regions() == seq![
            FreeRegion {
                size: (a.heap_end() - a.heap_start()) as usize,
                base: a.heap_start() as usize,
            },
        ],
{
    assert forall|x: int| a.heap_start() <= x < a.heap_end() implies #[trigger] covers(
        a.regions(),
        x,
    ) by {
        assert(!in_live(a.live(), x));
    }
    lemma_single_region(a.regions(), a.heap_start(), a.heap_end());
}

/// Live allocations never share a byte with each other or with the free list, and
/// each lies inside the heap.
pub proof fn lemma_live_disjoint<G: MemoryGrower>(a: &FreeListAllocator<G>)
    requires
        a.wf(),
    ensures
        forall|p: int, q: int|
            #![trigger a.live().contains_key(p), a.live().contains_key(q)]
            a.live().contains_key(p) && a.live().contains_key(q) && p != q ==> p + a.live()[p] <= q
                || q + a.live()[q] <= p,
        forall|p: int| #[trigger]
            a.live().contains_key(p) ==> a.heap_start() <= p && p + a.live()[p] <= a.heap_end()
                && apart_from(a.regions(), p, a.live()[p]),
{
}

} // verus!
