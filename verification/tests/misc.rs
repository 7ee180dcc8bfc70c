use my_os::gdt::DOUBLE_FAULT_IST_INDEX;
use my_os::pml4::{new_pml4_entries, KERNEL_HALF_START, PML4_ENTRIES};
use my_os::primes::is_prime;
use my_os::frames::{nth_usable_frame, MemRegion, FRAME_SIZE};
use my_os::task::{TaskContext, TaskIdCounter, INITIAL_RFLAGS};

#[test]
fn test_double_fault_ist_index() {
    assert_eq!(DOUBLE_FAULT_IST_INDEX, 0);
}

#[test]
fn small_primes() {
    let primes: Vec<u64> = (0..30).filter(|&n| is_prime(n)).collect();
    assert_eq!(primes, vec![2, 3, 5, 7, 11, 13, 17, 19, 23, 29]);
}

#[test]
fn task_5_prime_count() {
    let count = (2..10_000u64).filter(|&n| is_prime(n)).count();
    assert_eq!(count, 1229);
}

#[test]
fn large_numbers() {
    assert!(is_prime(4_294_967_291));
    assert!(!is_prime(4_294_967_291 * 3));
    assert!(!is_prime(0xFFFF_FFFE_0000_0001));
    assert!(!is_prime(u64::MAX));
}

#[test]
fn new_pml4_shares_the_kernel_half() {
    let kernel: Vec<u64> = (0..512u64).map(|i| i * 0x1000 + 3).collect();
    let t = new_pml4_entries(&kernel);
    assert_eq!(t.len(), PML4_ENTRIES);
    for i in 0..KERNEL_HALF_START {
        assert_eq!(t[i], 0);
    }
    for i in KERNEL_HALF_START..PML4_ENTRIES {
        assert_eq!(t[i], kernel[i]);
    }
}

#[test]
fn initial_task_context() {
    let c = TaskContext::initial(0xdead_beef);
    assert_eq!(c.to_words(), [0, 0, 0, 0, 0, 0, INITIAL_RFLAGS, 0xdead_beef]);
    assert_eq!(INITIAL_RFLAGS, 0x202);
}

#[test]
fn frames_come_from_usable_regions_in_order() {
    let regions = [
        MemRegion { start: 0x0, end: 0x1000, usable: false },
        MemRegion { start: 0x1000, end: 0x3000, usable: true },
        MemRegion { start: 0x3000, end: 0x8000, usable: false },
        MemRegion { start: 0x8000, end: 0x8800, usable: true },
        MemRegion { start: 0x9000, end: 0x9000, usable: true },
        MemRegion { start: 0x10000, end: 0x12001, usable: true },
    ];
    let frames: Vec<Option<u64>> = (0..7).map(|n| nth_usable_frame(&regions, n)).collect();
    assert_eq!(
        frames,
        vec![Some(0x1000), Some(0x2000), Some(0x8000), Some(0x10000), Some(0x11000), Some(0x12000), None]
    );
    assert_eq!(FRAME_SIZE, 4096);
    assert_eq!(nth_usable_frame(&[], 0), None);
}

#[test]
fn task_ids_are_handed_out_once_in_order() {
    let mut c = TaskIdCounter::new();
    assert!(c.can_issue());
    let ids: Vec<usize> = (0..5).map(|_| c.next_id()).collect();
    assert_eq!(ids, vec![0, 1, 2, 3, 4]);
}
