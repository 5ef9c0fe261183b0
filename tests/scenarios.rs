use lol_alloc::free_list::{carve, find_fit, insert_region};
use lol_alloc::{
    full_size, round_up, BoundedGrower, FailAllocator, FreeListAllocator, FreeRegion,
    LeakingAllocator, LeakingPageAllocator, MemoryGrower, PageCount, ERROR_PAGE_COUNT, NODE_SIZE,
    PAGE_SIZE,
};

const P: usize = PAGE_SIZE;
const H: usize = NODE_SIZE;

fn region(size: usize, base: usize) -> FreeRegion {
    FreeRegion { size, base }
}

#[test]
fn header_is_two_words() {
    assert_eq!(NODE_SIZE, 2 * std::mem::size_of::<usize>());
    assert_eq!(PAGE_SIZE, 65536);
}

#[test]
fn rounding_helpers() {
    assert_eq!(round_up(0, 8), 0);
    assert_eq!(round_up(1, 8), 8);
    assert_eq!(round_up(8, 8), 8);
    assert_eq!(round_up(9, 8), 16);
    assert_eq!(round_up(P + 1, P), 2 * P);
    assert_eq!(full_size(0), H);
    assert_eq!(full_size(1), H);
    assert_eq!(full_size(H), H);
    assert_eq!(full_size(H + 1), 2 * H);
    assert_eq!(full_size(100), round_up(100, H));
}

#[test]
fn page_count_in_bytes() {
    assert_eq!(PageCount(0).size_in_bytes(), 0);
    assert_eq!(PageCount(3).size_in_bytes(), 3 * P);
}

#[test]
fn bounded_grower_grows_until_full() {
    let mut g = BoundedGrower::new(3);
    assert_eq!(g.used_pages(), 0);
    assert_eq!(g.memory_grow(PageCount(2)), PageCount(0));
    assert_eq!(g.used_pages(), 2);
    assert_eq!(g.memory_grow(PageCount(2)), PageCount(ERROR_PAGE_COUNT));
    assert_eq!(g.used_pages(), 2);
    assert_eq!(g.memory_grow(PageCount(1)), PageCount(2));
    assert_eq!(g.used_pages(), 3);
    assert_eq!(g.memory_grow(PageCount(0)), PageCount(3));
}

#[test]
fn single_small_alloc_release() {
    let mut a = FreeListAllocator::new(BoundedGrower::new(10));
    assert_eq!(a.free_regions(), vec![]);
    let addr = a.allocate(1, 1).unwrap();
    assert_eq!(a.grower().used_pages(), 1);
    assert!(addr < P);
    assert_eq!(addr, P - H);
    assert_eq!(a.free_regions(), vec![region(P - H, 0)]);
    a.dealloc(addr, 1, 1);
    assert_eq!(a.free_regions(), vec![region(P, 0)]);
}

#[test]
fn tail_carving_and_alignment_hole() {
    let mut a = FreeListAllocator::new(BoundedGrower::new(10));
    let a1 = a.allocate(1, 1).unwrap();
    let a2 = a.allocate(2 * H, 2 * H).unwrap();
    assert_eq!(a1, P - H);
    assert_eq!(a2, P - 4 * H);
    assert_eq!(a.free_regions(), vec![region(H, P - 2 * H), region(P - 4 * H, 0)]);
    a.dealloc(a2, 2 * H, 2 * H);
    assert_eq!(a.free_regions(), vec![region(P - H, 0)]);
    a.dealloc(a1, 1, 1);
    assert_eq!(a.free_regions(), vec![region(P, 0)]);
}

#[test]
fn multi_page_allocation() {
    let mut a = FreeListAllocator::new(BoundedGrower::new(10));
    let small = a.allocate(1, 1).unwrap();
    assert_eq!(a.grower().used_pages(), 1);
    let big = a.allocate(P + 1, 1).unwrap();
    assert_eq!(a.grower().used_pages(), 3);
    assert!(big >= P && big + P + 1 <= 3 * P);
    assert_eq!(a.free_regions(), vec![region(P - H, P), region(P - H, 0)]);
    a.dealloc(big, P + 1, 1);
    a.dealloc(small, 1, 1);
    assert_eq!(a.free_regions(), vec![region(3 * P, 0)]);
}

#[test]
fn three_way_coalesce_on_release() {
    let mut list: Vec<FreeRegion> = vec![];
    insert_region(&mut list, 3 * H, H);
    insert_region(&mut list, H, H);
    assert_eq!(list, vec![region(H, 3 * H), region(H, H)]);
    insert_region(&mut list, 0, H);
    assert_eq!(list, vec![region(H, 3 * H), region(2 * H, 0)]);
    insert_region(&mut list, 2 * H, H);
    assert_eq!(list, vec![region(4 * H, 0)]);
}

#[test]
fn first_fit_and_carve_on_a_list() {
    let mut list = vec![region(4 * H, 12 * H), region(8 * H, 0)];
    // No offset in the upper region has that alignment; the lower one takes it.
    assert_eq!(find_fit(&list, 2 * H, 16 * H), Some(1));
    assert_eq!(find_fit(&list, 2 * H, H), Some(0));
    assert_eq!(find_fit(&list, 16 * H, H), None);
    let p = carve(&mut list, 1, 2 * H, 4 * H);
    assert_eq!(p, 4 * H);
    assert_eq!(list, vec![region(4 * H, 12 * H), region(2 * H, 6 * H), region(4 * H, 0)]);
}

#[test]
fn out_of_memory_propagates() {
    let mut a = FreeListAllocator::new(BoundedGrower::new(3));
    let mut live = vec![];
    loop {
        match a.allocate(1000, 8) {
            Some(p) => live.push(p),
            None => break,
        }
    }
    assert_eq!(a.grower().used_pages(), 3);
    assert!(live.len() >= 3 * P / (1000 + 2 * H));
    // A failed request leaves the free list as it was.
    let before = a.free_regions();
    assert_eq!(a.allocate(P, 8), None);
    assert_eq!(a.free_regions(), before);
    // Releases still coalesce.
    for (i, p) in live.iter().enumerate() {
        if i % 2 == 0 {
            a.dealloc(*p, 1000, 8);
        }
    }
    for (i, p) in live.iter().enumerate() {
        if i % 2 == 1 {
            a.dealloc(*p, 1000, 8);
        }
    }
    assert_eq!(a.free_regions(), vec![region(3 * P, 0)]);
}

#[test]
fn allocations_are_aligned_and_disjoint() {
    let mut a = FreeListAllocator::new(BoundedGrower::new(100));
    let mut live: Vec<(usize, usize)> = vec![];
    let mut pages = 0;
    for i in 0..200usize {
        let size = (i * 37) % 500;
        let align = 1usize << (i % 13);
        let p = a.allocate(size, align).unwrap();
        assert!(a.grower().used_pages() >= pages);
        pages = a.grower().used_pages();
        assert_eq!(p % align, 0);
        live.push((p, full_size(size)));
    }
    live.sort();
    for w in live.windows(2) {
        assert!(w[0].0 + w[0].1 <= w[1].0);
    }
}

#[test]
fn zero_size_takes_one_header() {
    let mut a = FreeListAllocator::new(BoundedGrower::new(10));
    let p = a.allocate(0, 1).unwrap();
    let q = a.allocate(0, 1).unwrap();
    assert_ne!(p, q);
    assert_eq!(a.free_regions(), vec![region(P - 2 * H, 0)]);
}

#[test]
fn page_aligned_request_takes_whole_page() {
    let mut a = FreeListAllocator::new(BoundedGrower::new(10));
    let p = a.allocate(P, P).unwrap();
    assert_eq!(p, 0);
    assert_eq!(a.free_regions(), vec![]);
    a.dealloc(p, P, P);
    assert_eq!(a.free_regions(), vec![region(P, 0)]);
}

#[test]
fn growth_merges_with_free_tail() {
    let mut a = FreeListAllocator::new(BoundedGrower::new(10));
    let p = a.allocate(P / 2, 1).unwrap();
    assert_eq!(p, P / 2);
    assert_eq!(a.free_regions(), vec![region(P / 2, 0)]);
    // Does not fit in what is left: one more page is added above the used half.
    let q = a.allocate(P - H, 1).unwrap();
    assert_eq!(a.grower().used_pages(), 2);
    assert_eq!(q, P + H);
    assert_eq!(a.free_regions(), vec![region(H, P), region(P / 2, 0)]);
}

#[test]
fn fail_allocator_fails() {
    let f = FailAllocator;
    assert_eq!(f.allocate(1, 1), None);
    assert_eq!(f.allocate(0, 8), None);
    f.dealloc(0, 1, 1);
}

#[test]
fn leaking_page_allocator_hands_out_pages() {
    let mut a = LeakingPageAllocator::new(BoundedGrower::new(4));
    assert_eq!(a.allocate(1, 1), Some(0));
    assert_eq!(a.allocate(P + 1, 16), Some(P));
    assert_eq!(a.allocate(P, 1), Some(3 * P));
    assert_eq!(a.allocate(1, 1), None);
    a.dealloc(0, 1, 1);
}

#[test]
fn leaking_allocator_bumps() {
    let mut a = LeakingAllocator::new(BoundedGrower::new(4));
    assert_eq!(a.allocate(1, 1), Some(0));
    assert_eq!(a.allocate(4, 4), Some(4));
    assert_eq!(a.allocate(3, 1), Some(8));
    assert_eq!(a.allocate(8, 8), Some(16));
    // Does not fit in the first page: the next page follows it, so the run goes on.
    assert_eq!(a.allocate(P, 1), Some(24));
    assert_eq!(a.allocate(P, 1), Some(P + 24));
    // Out of pages.
    assert_eq!(a.allocate(2 * P, 1), None);
    a.dealloc(0, 1, 1);
}

#[test]
fn leaking_allocator_skips_foreign_growth() {
    let mut g = BoundedGrower::new(10);
    // Memory that someone else already holds.
    assert_eq!(g.memory_grow(PageCount(2)), PageCount(0));
    let mut a = LeakingAllocator::new(g);
    assert_eq!(a.allocate(10, 1), Some(2 * P));
    assert_eq!(a.allocate(10, 8), Some(2 * P + 16));
}
