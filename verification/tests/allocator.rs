use my_os::linked_list_allocator::{LinkedListAllocator, ListNode, LIST_NODE_SIZE};

const HEAP_START: usize = 0x4444_4444_0000;
const HEAP_SIZE: usize = 100 * 1024;

fn heap() -> LinkedListAllocator {
    let mut a = LinkedListAllocator::new();
    a.init(HEAP_START, HEAP_SIZE);
    a
}

fn blocks(a: &LinkedListAllocator) -> Vec<(usize, usize)> {
    a.free_list().iter().map(|n| (n.addr, n.size)).collect()
}

#[test]
fn new_allocator_has_no_memory() {
    let mut a = LinkedListAllocator::new();
    assert!(a.free_list().is_empty());
    assert_eq!(a.allocate(8, 8), 0);
}

#[test]
fn init_makes_one_free_block() {
    let a = heap();
    assert_eq!(blocks(&a), vec![(HEAP_START, HEAP_SIZE)]);
    assert_eq!(a.free_list()[0], ListNode { size: HEAP_SIZE, addr: HEAP_START });
}

#[test]
fn effective_size_rounds_to_eight_and_header() {
    assert_eq!(LinkedListAllocator::effective_size(0), LIST_NODE_SIZE);
    assert_eq!(LinkedListAllocator::effective_size(1), 16);
    assert_eq!(LinkedListAllocator::effective_size(16), 16);
    assert_eq!(LinkedListAllocator::effective_size(17), 24);
    assert_eq!(LinkedListAllocator::effective_size(24), 24);
    assert_eq!(LinkedListAllocator::effective_size(1001), 1008);
}

#[test]
fn first_allocation_takes_the_start_of_the_heap() {
    let mut a = heap();
    let p = a.allocate(41, 8);
    assert_eq!(p, HEAP_START);
    assert_eq!(blocks(&a), vec![(HEAP_START + 48, HEAP_SIZE - 48)]);
}

#[test]
fn simple_box_allocation() {
    let mut a = heap();
    let v1 = a.allocate(4, 4);
    let v2 = a.allocate(4, 4);
    assert_ne!(v1, 0);
    assert_ne!(v2, 0);
    assert!(v2 >= v1 + 16, "blocks overlap");
}

#[test]
fn page_aligned_raw_allocation() {
    let mut a = LinkedListAllocator::new();
    a.init(HEAP_START + 8, 3 * 4096);
    let p = a.allocate(4096, 4096);
    assert_ne!(p, 0);
    assert_eq!(p % 4096, 0);
    // the padding in front stays free, as does the rest behind
    assert_eq!(
        blocks(&a),
        vec![(HEAP_START + 8, 4096 - 8), (HEAP_START + 8192, 3 * 4096 + 8 - 8192)]
    );
    a.dealloc(p, 4096);
    assert_eq!(blocks(&a), vec![(HEAP_START + 8, 3 * 4096)]);
}

#[test]
fn small_padding_is_given_up() {
    let mut a = LinkedListAllocator::new();
    a.init(HEAP_START + 8, 1024);
    let p = a.allocate(32, 16);
    assert_eq!(p, HEAP_START + 16);
    // the 8 bytes of padding cannot hold a header: they leave the free list
    assert_eq!(blocks(&a), vec![(HEAP_START + 48, 1024 + 8 - 48)]);
}

#[test]
fn small_leftover_is_given_up() {
    let mut a = LinkedListAllocator::new();
    a.init(HEAP_START, 40);
    let p = a.allocate(32, 8);
    assert_eq!(p, HEAP_START);
    assert!(a.free_list().is_empty());
}

#[test]
fn exact_fit_removes_the_block() {
    let mut a = LinkedListAllocator::new();
    a.init(HEAP_START, 64);
    assert_eq!(a.allocate(64, 8), HEAP_START);
    assert!(a.free_list().is_empty());
    assert_eq!(a.allocate(8, 8), 0);
}

#[test]
fn too_large_request_fails_and_changes_nothing() {
    let mut a = heap();
    assert_eq!(a.allocate(HEAP_SIZE + 1, 8), 0);
    assert_eq!(blocks(&a), vec![(HEAP_START, HEAP_SIZE)]);
}

#[test]
fn dealloc_coalesces_with_both_neighbours() {
    let mut a = heap();
    let x = a.allocate(128, 8);
    let y = a.allocate(256, 8);
    let z = a.allocate(512, 8);
    assert_eq!((x, y, z), (HEAP_START, HEAP_START + 128, HEAP_START + 384));
    a.dealloc(x, 128);
    assert_eq!(blocks(&a), vec![(HEAP_START, 128), (HEAP_START + 896, HEAP_SIZE - 896)]);
    a.dealloc(z, 512);
    assert_eq!(blocks(&a), vec![(HEAP_START, 128), (HEAP_START + 384, HEAP_SIZE - 384)]);
    a.dealloc(y, 256);
    assert_eq!(blocks(&a), vec![(HEAP_START, HEAP_SIZE)]);
}

#[test]
fn interleaved_alloc_free() {
    let mut a = heap();
    let x = a.allocate(128, 1);
    let y = a.allocate(256, 1);
    let z = a.allocate(512, 1);
    a.dealloc(y, 256);
    // first fit reuses the hole left by the freed middle block
    let w = a.allocate(64, 1);
    assert_eq!(w, y);
    assert!(x + 128 <= w && w + 64 <= z);
    assert_eq!(blocks(&a), vec![(y + 64, 192), (z + 512, HEAP_SIZE - 896)]);
}

#[test]
fn many_boxes_reuse_freed_memory() {
    let mut a = LinkedListAllocator::new();
    a.init(HEAP_START, 16 * 1024);
    for _ in 0..32 * 1024 {
        let p = a.allocate(1024, 1);
        assert_ne!(p, 0, "allocator ran out of memory: freed blocks are not reused");
        a.dealloc(p, 1024);
    }
    assert_eq!(blocks(&a), vec![(HEAP_START, 16 * 1024)]);
}

#[test]
fn long_lived_allocation_survives_churn() {
    let mut a = heap();
    let long_lived = a.allocate(8, 8);
    for _ in 0..10_000 {
        let x = a.allocate(8, 8);
        assert_ne!(x, 0);
        assert_ne!(x, long_lived);
        a.dealloc(x, 8);
    }
    for (addr, size) in blocks(&a) {
        assert!(long_lived + 16 <= addr || addr + size <= long_lived);
    }
}

#[test]
fn aligned_starts_fit_on_ordinary_heap() {
    let a = heap();
    assert!(a.aligned_starts_fit(4096, 4096));
    let mut b = LinkedListAllocator::new();
    b.init(usize::MAX - 64, 32);
    assert!(!b.aligned_starts_fit(128, 4096));
}

fn is_tidy(a: &LinkedListAllocator) -> bool {
    let b = blocks(a);
    b.iter().all(|&(addr, size)| addr % 8 == 0 && size >= LIST_NODE_SIZE)
        && b.windows(2).all(|w| w[0].0 + w[0].1 < w[1].0)
}

#[test]
fn free_list_stays_aligned_and_coalesced() {
    let mut a = heap();
    let mut live = Vec::new();
    for (i, (size, align)) in [(24, 8), (100, 16), (8, 1), (4096, 4096), (40, 4), (1, 2), (300, 64)]
        .iter()
        .enumerate()
    {
        let p = a.allocate(*size, *align);
        assert_ne!(p, 0);
        assert!(is_tidy(&a), "after allocation {}", i);
        live.push((p, *size));
    }
    for (k, &(p, size)) in live.iter().enumerate().filter(|(k, _)| k % 2 == 1) {
        a.dealloc(p, size);
        assert!(is_tidy(&a), "after freeing allocation {}", k);
    }
    for (k, &(p, size)) in live.iter().enumerate().filter(|(k, _)| k % 2 == 0) {
        a.dealloc(p, size);
        assert!(is_tidy(&a), "after freeing allocation {}", k);
    }
}

#[test]
fn allocation_from_an_aligned_block_and_free_restore_the_list() {
    let mut a = heap();
    let x = a.allocate(64, 8);
    let y = a.allocate(64, 8);
    a.dealloc(x, 64);
    let before = blocks(&a);
    assert_eq!(before, vec![(HEAP_START, 64), (y + 64, HEAP_SIZE - 128)]);
    // served exactly from the first block, nothing left behind
    let p = a.allocate(64, 8);
    assert_eq!(p, HEAP_START);
    a.dealloc(p, 64);
    assert_eq!(blocks(&a), before);
    // served from the front of the second block, a large rest left behind
    let q = a.allocate(200, 8);
    assert_eq!(q, y + 64);
    a.dealloc(q, 200);
    assert_eq!(blocks(&a), before);
}

#[test]
fn freeing_next_to_a_free_block_joins_them() {
    // a heap at an address that is not a multiple of 8: blocks still never touch
    let mut a = LinkedListAllocator::new();
    a.init(HEAP_START + 4, 4096);
    let x = a.allocate(32, 1);
    let y = a.allocate(32, 1);
    let z = a.allocate(32, 1);
    assert_eq!((x, y, z), (HEAP_START + 4, HEAP_START + 36, HEAP_START + 68));
    a.dealloc(x, 32);
    a.dealloc(z, 32);
    assert_eq!(blocks(&a), vec![(HEAP_START + 4, 32), (HEAP_START + 68, 4096 - 64)]);
    a.dealloc(y, 32);
    assert_eq!(blocks(&a), vec![(HEAP_START + 4, 4096)]);
}

#[test]
fn with_capacity_starts_empty() {
    let mut a = LinkedListAllocator::with_capacity(16);
    assert!(a.free_list().is_empty());
    a.init(HEAP_START, 1024);
    assert_eq!(blocks(&a), vec![(HEAP_START, 1024)]);
}
