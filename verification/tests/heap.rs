use tobacco_kernel::heap;
use tobacco_kernel::heap::KernelHeap;
use tobacco_kernel::heap_model::{FreeError, HeapRegion};
use tobacco_kernel::heap_selftest;
use tobacco_kernel::paging::MapError;

const BASE: u64 = 0x5000_0000;
const SIZE: u64 = 4 * 4096;

fn region() -> HeapRegion {
    HeapRegion { base: BASE, size: SIZE, guard_low: BASE - 4096, guard_high: BASE + SIZE }
}

fn mapped(pages: usize) -> Vec<Result<u64, MapError>> {
    (0..pages).map(|page| Ok(0x10_0000 + 4096 * page as u64)).collect()
}

fn ready() -> (KernelHeap, Vec<u8>) {
    let mut heap = KernelHeap::new(region());
    let mut memory = vec![0u8; SIZE as usize];
    let report = heap::init(&mut heap, &mut memory, &mapped(4));
    assert!(report.initialized);
    (heap, memory)
}

#[test]
fn heap_starts_with_one_free_block() {
    let (heap, memory) = ready();
    let report = heap::snapshot(&heap, &memory);
    assert_eq!(report.base, BASE);
    assert_eq!(report.size, SIZE);
    assert_eq!(report.mapped_pages, 4);
    assert_eq!(report.free_blocks, 1);
    assert_eq!(report.free_bytes, SIZE - 64);
    assert_eq!(report.largest_free_block, SIZE - 64);
    assert_eq!(report.active_allocations, 0);
    assert_eq!(report.metadata_capacity, 96);
    assert_eq!(report.guard_low, BASE - 4096);
    assert_eq!(report.guard_high, BASE + SIZE);
    assert!(report.metadata_ok && report.sentinel_ok && report.allocation_canaries_ok);
    for index in 0..64usize {
        assert_eq!(memory[index], 0x5a ^ (index as u8).wrapping_mul(17));
    }
}

#[test]
fn heap_stays_down_where_a_page_cannot_be_mapped() {
    let mut heap = KernelHeap::new(region());
    let mut results = mapped(4);
    results[2] = Err(MapError { name: "out of frames" });
    let mut memory: Vec<u8> = Vec::new();
    let report = heap::init(&mut heap, &mut memory, &results);
    assert!(!report.initialized);
    assert_eq!(report.mapped_pages, 2);
    assert!(heap::free(&mut heap, &memory, BASE + 72) == Err(FreeError::NotInitialized));
    assert_eq!(heap::allocate(&mut heap, &mut memory, 32, 8), None);
}

#[test]
fn heap_gives_out_aligned_room_between_canaries() {
    let (mut heap, mut memory) = ready();
    assert_eq!(heap::allocate(&mut heap, &mut memory, 32, 8), Some(BASE + 72));
    assert_eq!(memory[64..72], 0x4845_4150_4845_4144u64.to_le_bytes());
    assert_eq!(memory[104..112], 0x4845_4150_5441_494cu64.to_le_bytes());
    assert_eq!(heap::allocate(&mut heap, &mut memory, 64, 64), Some(BASE + 128));
    let report = heap::snapshot(&heap, &memory);
    assert_eq!(report.allocated_bytes, 96);
    assert_eq!(report.active_allocations, 2);
    assert_eq!(report.allocations, 2);
    assert_eq!(report.metadata_blocks, 3);
    assert_eq!(report.largest_free_block, SIZE - 200);
    assert_eq!(report.high_watermark, 96);
}

#[test]
fn heap_refuses_odd_requests() {
    let (mut heap, mut memory) = ready();
    assert_eq!(heap::allocate(&mut heap, &mut memory, 0, 8), None);
    assert_eq!(heap::allocate(&mut heap, &mut memory, 8, 0), None);
    assert_eq!(heap::allocate(&mut heap, &mut memory, 8, 24), None);
    assert_eq!(heap::allocate(&mut heap, &mut memory, 8, 8192), None);
    assert_eq!(heap::allocate(&mut heap, &mut memory, SIZE, 8), None);
    assert_eq!(heap::allocate(&mut heap, &mut memory, u64::MAX, 8), None);
    assert_eq!(heap::snapshot(&heap, &memory).failed_allocations, 6);
}

#[test]
fn heap_can_reuse_what_was_freed() {
    let (mut heap, mut memory) = ready();
    let first = heap::allocate(&mut heap, &mut memory, 100, 16).unwrap();
    let second = heap::allocate(&mut heap, &mut memory, 100, 16).unwrap();
    assert!(heap::free(&mut heap, &memory, first) == Ok(()));
    assert_eq!(heap::allocate(&mut heap, &mut memory, 100, 16), Some(first));
    assert!(heap::free(&mut heap, &memory, first) == Ok(()));
    assert!(heap::free(&mut heap, &memory, second) == Ok(()));
    let report = heap::snapshot(&heap, &memory);
    assert_eq!(report.free_blocks, 1);
    assert_eq!(report.free_bytes, SIZE - 64);
    assert_eq!(report.frees, 3);
    assert!(report.coalesces >= 2);
}

#[test]
fn heap_joins_free_neighbours_in_any_order() {
    for order in [[0usize, 1, 2], [0, 2, 1], [1, 0, 2], [1, 2, 0], [2, 0, 1], [2, 1, 0]] {
        let (mut heap, mut memory) = ready();
        let given: Vec<u64> = (0..4)
            .map(|_| heap::allocate(&mut heap, &mut memory, 48, 8).unwrap())
            .collect();
        let before = heap::snapshot(&heap, &memory);
        for index in order {
            assert!(heap::free(&mut heap, &memory, given[index]) == Ok(()));
        }
        let after = heap::snapshot(&heap, &memory);
        assert_eq!(after.free_blocks, 2);
        assert_eq!(after.coalesces - before.coalesces, 2);
        assert_eq!(after.free_bytes, before.free_bytes + 3 * 64);
        assert_eq!(after.active_allocations, 1);
        assert!(after.metadata_ok && after.allocation_canaries_ok);
        assert!(heap::free(&mut heap, &memory, given[3]) == Ok(()));
        let end = heap::snapshot(&heap, &memory);
        assert_eq!(end.free_blocks, 1);
        assert_eq!(end.coalesces, before.coalesces + 4);
    }
}

#[test]
fn heap_reports_bad_frees() {
    let (mut heap, mut memory) = ready();
    let address = heap::allocate(&mut heap, &mut memory, 24, 8).unwrap();
    assert!(heap::free(&mut heap, &memory, address + 8) == Err(FreeError::InvalidPointer));
    memory[(address - BASE) as usize + 24] ^= 0xff;
    assert!(heap::free(&mut heap, &memory, address) == Err(FreeError::Corruption));
    memory[(address - BASE) as usize + 24] ^= 0xff;
    assert!(heap::free(&mut heap, &memory, address) == Ok(()));
    assert!(heap::free(&mut heap, &memory, address) == Err(FreeError::DoubleFree));
    let report = heap::snapshot(&heap, &memory);
    assert_eq!(report.failed_frees, 3);
    assert_eq!(report.invalid_frees, 1);
    assert_eq!(report.double_frees, 1);
    assert_eq!(report.corruption_detections, 1);
}

#[test]
fn heap_check_sees_a_broken_sentinel() {
    let (mut heap, mut memory) = ready();
    assert!(heap::corruption_check(&mut heap, &memory, true));
    assert!(!heap::corruption_check(&mut heap, &memory, false));
    memory[3] ^= 1;
    assert!(!heap::corruption_check(&mut heap, &memory, true));
    let report = heap::snapshot(&heap, &memory);
    assert_eq!(report.corruption_checks, 3);
    assert_eq!(report.corruption_failures, 2);
    assert!(!report.sentinel_ok);
}

#[test]
fn heap_passes_its_own_tests() {
    let (mut heap, mut memory) = ready();
    assert!(heap_selftest::probe(&mut heap, &mut memory));
    assert!(heap_selftest::selftest(&mut heap, &mut memory, true));
    assert!(heap_selftest::stress(&mut heap, &mut memory, true));
    assert!(!heap_selftest::selftest(&mut heap, &mut memory, false));
    let report = heap::snapshot(&heap, &memory);
    assert_eq!(report.active_allocations, 0);
    assert_eq!(report.free_blocks, 1);
    assert!(report.metadata_ok);
}

#[test]
fn heap_allocations_do_not_overlap() {
    let (mut heap, mut memory) = ready();
    let mut given: Vec<(u64, u64)> = Vec::new();
    for round in 0..40u64 {
        let size = 16 + round * 7 % 90;
        if let Some(address) = heap::allocate(&mut heap, &mut memory, size, 1 << (round % 7)) {
            assert_eq!(address % (1 << (round % 7)), 0);
            given.push((address, size));
        }
        if round % 3 == 2 {
            let (address, _) = given.swap_remove((round as usize * 5) % given.len());
            assert!(heap::free(&mut heap, &memory, address) == Ok(()));
        }
    }
    for (index, left) in given.iter().enumerate() {
        for right in &given[index + 1..] {
            assert!(left.0 + left.1 <= right.0 || right.0 + right.1 <= left.0);
        }
    }
    assert!(heap::corruption_check(&mut heap, &memory, true));
}
