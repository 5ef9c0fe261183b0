use lol_alloc::free_list::insert_region;
use lol_alloc::{multiple_below, BoundedGrower, FreeListAllocator, FreeRegion, NODE_SIZE, PAGE_SIZE};
use rand::Rng;
use rand_core::SeedableRng;
use rand_pcg::Pcg32;

struct Allocation {
    size: usize,
    align: usize,
    ptr: usize,
}

fn region(size: usize, base: usize) -> FreeRegion {
    FreeRegion { size, base }
}

/// The free list, checked against the invariants it must keep.
fn free_list_content(allocator: &FreeListAllocator<BoundedGrower>) -> Vec<FreeRegion> {
    checked(&allocator.free_regions(), allocator.grower().used_pages() * PAGE_SIZE)
}

fn allocate(allocator: &mut FreeListAllocator<BoundedGrower>, size: usize, align: usize) -> Allocation {
    let ptr = allocator.allocate(size, align).expect("Slab Full");
    Allocation { size, align, ptr }
}

fn free(allocator: &mut FreeListAllocator<BoundedGrower>, a: Allocation) {
    allocator.dealloc(a.ptr, a.size, a.align);
}

#[test]
fn multiple_below_works() {
    assert_eq!(multiple_below(0, 8), 0);
    assert_eq!(multiple_below(7, 8), 0);
    assert_eq!(multiple_below(8, 8), 8);
    assert_eq!(multiple_below(9, 8), 8);
    assert_eq!(multiple_below(15, 8), 8);
    assert_eq!(multiple_below(16, 8), 16);

    assert_eq!(multiple_below(127, 128), 0);
    assert_eq!(multiple_below(100223, 128), 100096);
}

/// Checks a free list inside the heap `[0, heap_end)` against the invariants it must keep.
fn checked(list: &Vec<FreeRegion>, heap_end: usize) -> Vec<FreeRegion> {
    let mut previous: Option<FreeRegion> = None;
    for r in list {
        assert_eq!(r.base % NODE_SIZE, 0);
        assert_eq!(r.size % NODE_SIZE, 0);
        assert!(r.size >= NODE_SIZE);
        assert!(r.base + r.size <= heap_end);
        if let Some(p) = previous {
            assert!(p.base > r.base + r.size, "Free list nodes should not overlap or be adjacent");
        }
        previous = Some(*r);
    }
    list.clone()
}

/// Returning ranges populates the free list, coalescing adjacent regions.
#[test]
fn populates_free_list() {
    // One page of heap, so that the returned ranges lie inside it.
    let heap_end = PAGE_SIZE;
    let mut list: Vec<FreeRegion> = vec![];
    assert_eq!(checked(&list, heap_end), []);

    let free = |list: &mut Vec<FreeRegion>, r: FreeRegion| insert_region(list, r.base, r.size);

    free(&mut list, region(NODE_SIZE, NODE_SIZE * 3));
    assert_eq!(checked(&list, heap_end), [region(NODE_SIZE, NODE_SIZE * 3)]);

    // Free before, not contiguous
    free(&mut list, region(NODE_SIZE, NODE_SIZE));
    assert_eq!(
        checked(&list, heap_end),
        [region(NODE_SIZE, NODE_SIZE * 3), region(NODE_SIZE, NODE_SIZE)]
    );

    // Free before, contiguous
    free(&mut list, region(NODE_SIZE, 0));
    assert_eq!(
        checked(&list, heap_end),
        [region(NODE_SIZE, NODE_SIZE * 3), region(NODE_SIZE * 2, 0)]
    );

    // Free between, contiguous
    free(&mut list, region(NODE_SIZE, NODE_SIZE * 2));
    assert_eq!(checked(&list, heap_end), [region(NODE_SIZE * 4, 0)]);

    // Free after, contiguous
    free(&mut list, region(NODE_SIZE, NODE_SIZE * 4));
    assert_eq!(checked(&list, heap_end), [region(NODE_SIZE * 5, 0)]);

    // Free after, not contiguous
    free(&mut list, region(NODE_SIZE, NODE_SIZE * 6));
    assert_eq!(
        checked(&list, heap_end),
        [region(NODE_SIZE, NODE_SIZE * 6), region(NODE_SIZE * 5, 0)]
    );
}

#[test]
fn it_works() {
    let mut allocator = FreeListAllocator::new(BoundedGrower::new(1000));
    assert_eq!(free_list_content(&allocator), []);

    let alloc = allocate(&mut allocator, 1, 1);
    assert_eq!(allocator.grower().used_pages(), 1);
    // Expect allocation at the end of first page.
    assert_eq!(free_list_content(&allocator), [region(PAGE_SIZE - NODE_SIZE, 0)]);
    // Merge into end of existing chunk
    free(&mut allocator, alloc);
    assert_eq!(free_list_content(&allocator), [region(PAGE_SIZE, 0)]);

    // Allocate small value to impact alignment
    let alloc = allocate(&mut allocator, 1, 1);
    // Allocate larger aligned value to cause a hole after it
    let alloc_big = allocate(&mut allocator, NODE_SIZE * 2, NODE_SIZE * 2);
    assert_eq!(
        free_list_content(&allocator),
        [
            region(NODE_SIZE, PAGE_SIZE - NODE_SIZE * 2),
            region(PAGE_SIZE - NODE_SIZE * 4, 0),
        ]
    );

    // Free second allocation, causing 3 way join
    free(&mut allocator, alloc_big);
    assert_eq!(free_list_content(&allocator), [region(PAGE_SIZE - NODE_SIZE, 0)]);

    // Multi-page allocation
    assert_eq!(allocator.grower().used_pages(), 1);
    let multi_page = allocate(&mut allocator, PAGE_SIZE + 1, 1);
    assert_eq!(allocator.grower().used_pages(), 3);
    assert_eq!(
        free_list_content(&allocator),
        [
            region(PAGE_SIZE - NODE_SIZE, PAGE_SIZE),
            region(PAGE_SIZE - NODE_SIZE, 0),
        ]
    );

    // Free everything
    free(&mut allocator, alloc);
    assert_eq!(free_list_content(&allocator), [region(PAGE_SIZE * 2 - NODE_SIZE, 0)]);
    free(&mut allocator, multi_page);
    assert_eq!(free_list_content(&allocator), [region(PAGE_SIZE * 3, 0)]);
}

#[test]
fn fuzz() {
    let mut rng = Pcg32::seed_from_u64(0);

    for _ in 0..100 {
        let mut allocator = FreeListAllocator::new(BoundedGrower::new(1000));

        let mut allocations = vec![];
        for _ in 0..5000 {
            // Randomly free some allocations.
            while !allocations.is_empty() {
                if rng.gen_bool(0.45) {
                    let alloc = allocations.swap_remove(rng.gen_range(0..allocations.len()));
                    free(&mut allocator, alloc);
                } else {
                    break;
                }
            }
            // Do a random small allocation
            let size = rng.gen_range(1..100);
            allocations.push(allocate(&mut allocator, size, 1 << rng.gen_range(0..7)));
            if rng.gen_bool(0.05) {
                // Do a random large allocation
                let size = rng.gen_range(1..(PAGE_SIZE * 10));
                allocations.push(allocate(&mut allocator, size, 1 << rng.gen_range(0..16)));
            }
        }
        free_list_content(&allocator);
        while !allocations.is_empty() {
            let alloc = allocations.swap_remove(rng.gen_range(0..allocations.len()));
            free(&mut allocator, alloc);
        }
        assert_eq!(
            free_list_content(&allocator),
            [region(allocator.grower().used_pages() * PAGE_SIZE, 0)]
        );
    }
}
