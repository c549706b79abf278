//! The heap's tests of itself.
use crate::{bytes, heap, heap_laws};
use crate::heap::{KernelHeap, Snapshot};
use crate::heap_laws::HeapState;
use crate::heap_model::FreeError;
use vstd::prelude::*;

verus! {

/// A heap and its region as one state.
pub open spec fn state_of(heap: &KernelHeap, memory: Seq<u8>) -> HeapState {
    HeapState { heap: heap@, memory }
}

/// After a corruption check.
pub open spec fn checked(state: HeapState, guards_ok: bool) -> HeapState {
    HeapState {
        heap: heap::checked_model(
            state.heap,
            heap::healthy(state.heap, state.memory) && guards_ok,
        ),
        ..state
    }
}

/// Where `probe` leads, and whether there was room for it.
pub open spec fn probe_end(state: HeapState) -> (HeapState, bool) {
    match state.address(32, 8) {
        None => (state.allocate(32, 8), false),
        Some(address) => (state.allocate(32, 8).fill(address, 32, 0xa5).free(address), true),
    }
}

/// Where the first half of `selftest` leads: three blocks, of which the second is freed twice.
pub open spec fn selftest_middle(
    state: HeapState,
    first: u64,
    second: u64,
    third: u64,
) -> HeapState {
    state.fill(first, 64, 0x11).fill(second, 128, 0x22).fill(third, 32, 0x33).free(second).free(
        second,
    )
}

/// Where `selftest` leads, but for the final check, and whether there was room for it.
pub open spec fn selftest_end(state: HeapState) -> (HeapState, bool) {
    let one = state.allocate(64, 16);
    let two = one.allocate(128, 64);
    let three = two.allocate(32, 8);
    match (state.address(64, 16), one.address(128, 64), two.address(32, 8)) {
        (None, _, _) => (one, false),
        (Some(first), None, _) => (two.free(first), false),
        (Some(first), Some(second), None) => (three.free(second).free(first), false),
        (Some(first), Some(second), Some(third)) => {
            let middle = selftest_middle(three, first, second, third);
            let four = middle.allocate(96, 32);
            match middle.address(96, 32) {
                None => (four.free(first).free(third), false),
                Some(reused) => {
                    let filled = four.fill(reused, 96, 0x44);
                    let five = filled.allocate(24, 8);
                    match filled.address(24, 8) {
                        None => (five.free(reused).free(third).free(first), false),
                        Some(corrupt) => (
                            five.corrupt(corrupt).free(corrupt).repair(corrupt).free(corrupt).free(
                                reused,
                            ).free(third).free(first),
                            true,
                        ),
                    }
                },
            }
        },
    }
}

/// `state` after the final check, which a test makes only where the canaries stand.
pub open spec fn finally_checked(state: HeapState, guards_ok: bool) -> HeapState {
    if state.all_intact() {
        checked(state, guards_ok)
    } else {
        state
    }
}

/// Writes the pattern grown from `seed` to `size` bytes at `address` and reads it back.
pub fn write_and_verify_pattern(
    heap: &KernelHeap,
    memory: &mut [u8],
    address: u64,
    size: u64,
    seed: u8,
) -> (r: bool)
    requires
        heap@.region.base <= address,
        address + size <= heap@.region.base + old(memory)@.len(),
    ensures
        r,
        final(memory)@ == bytes::overwrite(
            old(memory)@,
            address - heap@.region.base,
            heap_laws::pattern(seed, size),
        ),
{
    let ghost before = memory@;
    let length: usize = memory.len();
    let start: usize = (address - heap.base()) as usize;
    let count: usize = size as usize;
    let mut index: usize = 0;
    while index < count
        invariant
            index <= count,
            count == size,
            start + count <= length,
            length == memory@.len(),
            before.len() == length,
            forall|i: int|
                0 <= i < length ==> #[trigger] memory@[i] == if start <= i < start + index {
                    heap_laws::pattern_byte(seed, i - start)
                } else {
                    before[i]
                },
        decreases count - index,
    {
        memory[start + index] = pattern_at(seed, index);
        index = index + 1;
    }
    let mut index: usize = 0;
    while index < count
        invariant
            index <= count,
            count == size,
            start + count <= length,
            length == memory@.len(),
            forall|i: int|
                start <= i < start + count ==> #[trigger] memory@[i] == heap_laws::pattern_byte(
                    seed,
                    i - start,
                ),
        decreases count - index,
    {
        if memory[start + index] != pattern_at(seed, index) {
            return false;
        }
        index = index + 1;
    }
    assert(memory@ =~= bytes::overwrite(before, start as int, heap_laws::pattern(seed, size)));
    true
}

fn pattern_at(seed: u8, index: usize) -> (r: u8)
    ensures
        r == heap_laws::pattern_byte(seed, index as int),
{
    let sum: u8 = seed.wrapping_add((index % 256) as u8);
    assert(((sum << 1) | (sum >> 7)) == (sum * 2) % 256 + sum / 128) by (bit_vector);
    (sum << 1) | (sum >> 7)
}

/// Gives out a small block, writes to it, and gives it back.
pub fn probe(heap: &mut KernelHeap, memory: &mut [u8]) -> (r: bool)
    requires
        old(heap)@.inv(),
        old(heap)@.backed_by(old(memory)@),
    ensures
        state_of(final(heap), final(memory)@) == probe_end(state_of(old(heap), old(memory)@)).0,
        r == probe_end(state_of(old(heap), old(memory)@)).1,
        final(heap)@.inv(),
{
    let ghost before = state_of(heap, memory@);
    proof {
        if before.heap.initialized {
            heap_laws::law_alloc(before, 32, 8);
        }
    }
    let address: u64 = match heap.allocate(memory, 32, 8) {
        None => {
            return false;
        },
        Some(address) => address,
    };
    let ghost taken = before.allocate(32, 8);
    proof {
        assert(state_of(heap, memory@) =~= taken);
        heap_laws::law_payload_is_free_to_use(
            taken,
            address,
            address,
            heap_laws::pattern(0xa5, 32),
        );
    }
    let ok: bool = write_and_verify_pattern(heap, memory, address, 32, 0xa5);
    let ghost filled = taken.fill(address, 32, 0xa5);
    proof {
        assert(state_of(heap, memory@) =~= filled);
        assert(taken.intact(address));
        heap_laws::law_free(filled, address);
    }
    let freed: bool = heap.free(memory, address).is_ok();
    assert(state_of(heap, memory@) =~= filled.free(address));
    ok && freed
}

/// A refused free leaves every block and canary as it was.
proof fn lemma_refused(state: HeapState, address: u64)
    requires
        state.ok(),
        !state.intact(address),
    ensures
        state.free(address).ok(),
        state.free(address).memory == state.memory,
        state.free(address).heap.region == state.heap.region,
        state.free(address).all_intact() == state.all_intact(),
        state.free(address).live_count() == state.live_count(),
        state.free(address).live_bytes() == state.live_bytes(),
        forall|other: u64|
            #![trigger state.free(address).block_at(other)]
            #![trigger state.block_at(other)]
            state.free(address).block_at(other) == state.block_at(other),
        forall|other: u64|
            #![trigger state.free(address).intact(other)]
            #![trigger state.intact(other)]
            state.free(address).intact(other) == state.intact(other),
{
    heap_laws::law_bad_frees_change_nothing(state, address);
}

/// Gives out, writes to, frees, damages and repairs blocks, and checks that the heap answers
/// each step as it should; `guards_ok` says whether the guard pages beside the heap hold.
///
/// The test passes exactly where there is room for it, the canaries of whatever else is given
/// out stand, the sentinel stands, and the guard pages hold.
pub fn selftest(heap: &mut KernelHeap, memory: &mut [u8], guards_ok: bool) -> (r: bool)
    requires
        old(heap)@.inv(),
        old(heap)@.backed_by(old(memory)@),
    ensures
        ({
            let before = state_of(old(heap), old(memory)@);
            let (end, room) = selftest_end(before);
            &&& state_of(final(heap), final(memory)@) == if room {
                finally_checked(end, guards_ok)
            } else {
                end
            }
            &&& r == (room && before.all_intact() && before.sentinel() && guards_ok)
        }),
        final(heap)@.inv(),
{
    let ghost s0 = state_of(heap, memory@);
    let before: Snapshot = heap.snapshot(memory);
    proof {
        if s0.heap.initialized {
            heap_laws::law_alloc(s0, 64, 16);
        }
    }
    let first: u64 = match heap.allocate(memory, 64, 16) {
        None => {
            return false;
        },
        Some(address) => address,
    };
    let ghost s1 = s0.allocate(64, 16);
    proof {
        assert(state_of(heap, memory@) =~= s1);
        heap_laws::law_alloc(s1, 128, 64);
    }
    let second: u64 = match heap.allocate(memory, 128, 64) {
        None => {
            let ghost failed = s1.allocate(128, 64);
            assert(state_of(heap, memory@) =~= failed);
            let _ = heap.free(memory, first);
            assert(state_of(heap, memory@) =~= failed.free(first));
            return false;
        },
        Some(address) => address,
    };
    let ghost s2 = s1.allocate(128, 64);
    proof {
        assert(state_of(heap, memory@) =~= s2);
        heap_laws::law_alloc(s2, 32, 8);
    }
    let third: u64 = match heap.allocate(memory, 32, 8) {
        None => {
            let ghost failed = s2.allocate(32, 8);
            assert(state_of(heap, memory@) =~= failed);
            let _ = heap.free(memory, second);
            assert(state_of(heap, memory@) =~= failed.free(second));
            let _ = heap.free(memory, first);
            assert(state_of(heap, memory@) =~= failed.free(second).free(first));
            return false;
        },
        Some(address) => address,
    };
    let ghost s3 = s2.allocate(32, 8);
    let ghost s4 = s3.fill(first, 64, 0x11).fill(second, 128, 0x22).fill(third, 32, 0x33);
    proof {
        assert(state_of(heap, memory@) =~= s3);
        assert(s1.intact(first) && s2.intact(first) && s2.intact(second));
        assert(s3.block_at(first) == s2.block_at(first));
        assert(s3.block_at(second) == s2.block_at(second));
        assert(s3.intact(first) && s3.intact(second) && s3.intact(third));
        heap_laws::law_payload_is_free_to_use(s3, first, first, heap_laws::pattern(0x11, 64));
        let a = s3.fill(first, 64, 0x11);
        heap_laws::law_payload_is_free_to_use(a, second, second, heap_laws::pattern(0x22, 128));
        let b = a.fill(second, 128, 0x22);
        heap_laws::law_payload_is_free_to_use(b, third, third, heap_laws::pattern(0x33, 32));
        assert(a.intact(first) && a.intact(second) && a.intact(third));
        assert(b.intact(first) && b.intact(second) && b.intact(third));
        assert(s4.intact(first) && s4.intact(second) && s4.intact(third));
        heap_laws::law_free(s4, second);
    }
    let align_ok: bool = first % 16 == 0 && second % 64 == 0 && third % 8 == 0;
    let patterns_ok: bool = write_and_verify_pattern(heap, memory, first, 64, 0x11)
        && write_and_verify_pattern(heap, memory, second, 128, 0x22) && write_and_verify_pattern(
        heap,
        memory,
        third,
        32,
        0x33,
    );
    assert(state_of(heap, memory@) =~= s4);
    let freed_second: bool = heap.free(memory, second).is_ok();
    let ghost s5 = s4.free(second);
    proof {
        assert(state_of(heap, memory@) =~= s5);
        lemma_refused(s5, second);
    }
    let double_free_detected: bool = match heap.free(memory, second) {
        Err(FreeError::DoubleFree) => true,
        _ => false,
    };
    let ghost s6 = s5.free(second);
    proof {
        assert(state_of(heap, memory@) =~= s6);
        assert(s5.intact(first) && s5.intact(third));
        assert(s6.intact(first) && s6.intact(third));
        heap_laws::law_alloc(s6, 96, 32);
    }
    let reused: u64 = match heap.allocate(memory, 96, 32) {
        None => {
            let ghost failed = s6.allocate(96, 32);
            assert(state_of(heap, memory@) =~= failed);
            let _ = heap.free(memory, first);
            assert(state_of(heap, memory@) =~= failed.free(first));
            let _ = heap.free(memory, third);
            assert(state_of(heap, memory@) =~= failed.free(first).free(third));
            return false;
        },
        Some(address) => address,
    };
    let ghost s7 = s6.allocate(96, 32);
    let ghost s8 = s7.fill(reused, 96, 0x44);
    proof {
        assert(state_of(heap, memory@) =~= s7);
        heap_laws::law_payload_is_free_to_use(s7, reused, reused, heap_laws::pattern(0x44, 96));
        assert(s7.intact(first) && s7.intact(third) && s7.intact(reused));
        assert(s8.intact(first) && s8.intact(third) && s8.intact(reused));
        heap_laws::law_alloc(s8, 24, 8);
    }
    let reuse_ok: bool = reused % 32 == 0 && write_and_verify_pattern(
        heap,
        memory,
        reused,
        96,
        0x44,
    );
    assert(state_of(heap, memory@) =~= s8);
    let corrupt: u64 = match heap.allocate(memory, 24, 8) {
        None => {
            let ghost failed = s8.allocate(24, 8);
            assert(state_of(heap, memory@) =~= failed);
            let _ = heap.free(memory, reused);
            assert(state_of(heap, memory@) =~= failed.free(reused));
            let _ = heap.free(memory, third);
            assert(state_of(heap, memory@) =~= failed.free(reused).free(third));
            let _ = heap.free(memory, first);
            assert(state_of(heap, memory@) =~= failed.free(reused).free(third).free(first));
            return false;
        },
        Some(address) => address,
    };
    let ghost s9 = s8.allocate(24, 8);
    proof {
        assert(state_of(heap, memory@) =~= s9);
        assert(s9.intact(first) && s9.intact(third) && s9.intact(reused) && s9.intact(corrupt));
        heap_laws::law_corruption_is_detected(s9, corrupt);
    }
    let corrupted: bool = heap.corrupt_tail_canary_for(memory, corrupt);
    let ghost s10 = s9.corrupt(corrupt);
    assert(state_of(heap, memory@) =~= s10);
    let corruption_was_detected: bool = match heap.free(memory, corrupt) {
        Err(FreeError::Corruption) => true,
        _ => false,
    };
    let ghost s11 = s10.free(corrupt);
    proof {
        assert(state_of(heap, memory@) =~= s11);
        lemma_refused(s10, corrupt);
        assert(s11.block_at(corrupt) == s10.block_at(corrupt));
    }
    let repaired: bool = heap.repair_canaries_for(memory, corrupt);
    let ghost s12 = s11.repair(corrupt);
    proof {
        assert(state_of(heap, memory@) =~= s12);
        let mended = s10.repair(corrupt);
        assert(s12.memory == mended.memory);
        assert(s12.heap.blocks == mended.heap.blocks);
        assert(mended.intact(first) && mended.intact(third) && mended.intact(reused));
        assert forall|other: u64|
            #![trigger s12.block_at(other)]
            #![trigger mended.block_at(other)]
            s12.block_at(other) == mended.block_at(other) by {}
        assert(s12.intact(first) && s12.intact(third) && s12.intact(reused) && s12.intact(corrupt));
        heap_laws::law_free(s12, corrupt);
    }
    let corrupt_freed: bool = heap.free(memory, corrupt).is_ok();
    let corruption_detected: bool = corrupted && corruption_was_detected && repaired
        && corrupt_freed;
    let ghost s13 = s12.free(corrupt);
    proof {
        assert(state_of(heap, memory@) =~= s13);
        assert(s13.intact(reused) && s13.intact(third) && s13.intact(first));
        heap_laws::law_free(s13, reused);
    }
    let reused_freed: bool = heap.free(memory, reused).is_ok();
    let ghost s14 = s13.free(reused);
    proof {
        assert(state_of(heap, memory@) =~= s14);
        assert(s14.intact(third) && s14.intact(first));
        heap_laws::law_free(s14, third);
    }
    let third_freed: bool = heap.free(memory, third).is_ok();
    let ghost s15 = s14.free(third);
    proof {
        assert(state_of(heap, memory@) =~= s15);
        assert(s15.intact(first));
        heap_laws::law_free(s15, first);
    }
    let first_freed: bool = heap.free(memory, first).is_ok();
    let ghost s16 = s15.free(first);
    proof {
        assert(state_of(heap, memory@) =~= s16);
        assert(selftest_end(s0) == (s16, true));
        heap_laws::law_metadata_always_ok(s16);
        assert(s16.live_count() == s0.live_count());
        assert(s16.live_bytes() == s0.live_bytes());
        assert(s16.all_intact() == s0.all_intact());
        assert(s16.sentinel() == s0.sentinel());
    }
    let cleanup: bool = reused_freed && third_freed && first_freed;
    let after: Snapshot = heap.snapshot(memory);
    let passed: bool = align_ok && patterns_ok && freed_second && double_free_detected && reuse_ok
        && corruption_detected && cleanup && after.active_allocations
        == before.active_allocations && after.allocated_bytes == before.allocated_bytes
        && after.metadata_ok && after.allocation_canaries_ok && heap.corruption_check(
        memory,
        guards_ok,
    );
    assert(state_of(heap, memory@) =~= finally_checked(s16, guards_ok));
    passed
}

/// The size of allocation `index` of the stress test.
pub open spec fn stress_size(index: int) -> u64 {
    (24 + 16 * index) as u64
}

/// The alignment of allocation `index` of the stress test.
pub open spec fn stress_align(index: int) -> u64 {
    if index % 4 == 0 {
        8
    } else if index % 4 == 1 {
        16
    } else if index % 4 == 2 {
        32
    } else {
        64
    }
}

/// After every address from `from` on that is not zero has been freed.
pub open spec fn cleaned(state: HeapState, addresses: Seq<u64>, from: int) -> HeapState
    decreases addresses.len() - from,
{
    if from < 0 || from >= addresses.len() {
        state
    } else if addresses[from] != 0 {
        cleaned(state.free(addresses[from]), addresses, from + 1)
    } else {
        cleaned(state, addresses, from + 1)
    }
}

/// Every address from `from` on that is not zero can be freed.
pub open spec fn cleans_up(state: HeapState, addresses: Seq<u64>, from: int) -> bool
    decreases addresses.len() - from,
{
    if from < 0 || from >= addresses.len() {
        true
    } else if addresses[from] != 0 {
        &&& state.answer(addresses[from]) is Ok
        &&& cleans_up(state.free(addresses[from]), addresses, from + 1)
    } else {
        cleans_up(state, addresses, from + 1)
    }
}

/// The allocations of the stress test from `index` on: where they lead, what they return, and
/// whether there was room. Where there was none, what had been given out is freed.
pub open spec fn stress_fill(state: HeapState, addresses: Seq<u64>, index: int) -> (
    HeapState,
    Seq<u64>,
    bool,
)
    decreases 8 - index,
{
    let size = stress_size(index);
    let align = stress_align(index);
    if index < 0 || index >= 8 {
        (state, addresses, true)
    } else {
        match state.address(size, align) {
            None => (cleaned(state.allocate(size, align), addresses, 0), addresses, false),
            Some(address) => stress_fill(
                state.allocate(size, align).fill(address, size, index as u8),
                addresses.update(index, address),
                index + 1,
            ),
        }
    }
}

/// Where `stress` leads, but for the final check, and whether there was room for it.
pub open spec fn stress_end(state: HeapState) -> (HeapState, bool) {
    let (full, addresses, room) = stress_fill(state, Seq::new(8, |i: int| 0u64), 0);
    if !room {
        (full, false)
    } else {
        let left = addresses.update(1, 0).update(3, 0).update(5, 0);
        let holes = full.free(addresses[1]).free(addresses[3]).free(addresses[5]);
        let one = holes.allocate(48, 16);
        let two = one.allocate(96, 32);
        match (holes.address(48, 16), one.address(96, 32)) {
            (None, _) => (cleaned(one, left, 0), false),
            (Some(first), None) => (cleaned(two.free(first), left, 0), false),
            (Some(first), Some(second)) => (
                cleaned(
                    two.fill(first, 48, 0x77).fill(second, 96, 0x88).free(second).free(first),
                    left,
                    0,
                ),
                true,
            ),
        }
    }
}

/// How many of the addresses from `from` on are not zero.
spec fn held_count(addresses: Seq<u64>, from: int) -> int
    decreases addresses.len() - from,
{
    if from < 0 || from >= addresses.len() {
        0
    } else {
        held_count(addresses, from + 1) + if addresses[from] != 0 {
            1int
        } else {
            0
        }
    }
}

/// How many bytes were asked for at the addresses from `from` on that are not zero.
spec fn held_bytes(addresses: Seq<u64>, from: int) -> int
    decreases addresses.len() - from,
{
    if from < 0 || from >= addresses.len() {
        0
    } else {
        held_bytes(addresses, from + 1) + if addresses[from] != 0 {
            stress_size(from) as int
        } else {
            0
        }
    }
}

/// The addresses in `from..to` that are not zero are all different, given out in the sizes of
/// the stress test, and intact.
spec fn held(state: HeapState, addresses: Seq<u64>, from: int, to: int) -> bool {
    &&& forall|i: int|
        from <= i < to && #[trigger] addresses[i] != 0 ==> state.intact(addresses[i])
            && state.block_at(addresses[i])->0.requested_size == stress_size(i)
    &&& forall|i: int, j: int|
        from <= i < j < to && #[trigger] addresses[i] != 0 && #[trigger] addresses[j] != 0
            ==> addresses[i] != addresses[j]
}

/// Freeing what is held succeeds and gives back what it held.
proof fn lemma_cleaned(state: HeapState, addresses: Seq<u64>, from: int)
    requires
        state.ok(),
        0 <= from <= addresses.len(),
        held(state, addresses, from, addresses.len() as int),
    ensures
        ({
            let after = cleaned(state, addresses, from);
            &&& cleans_up(state, addresses, from)
            &&& after.ok()
            &&& after.heap.region == state.heap.region
            &&& after.memory == state.memory
            &&& after.all_intact() == state.all_intact()
            &&& after.live_count() == state.live_count() - held_count(addresses, from)
            &&& after.live_bytes() == state.live_bytes() - held_bytes(addresses, from)
        }),
    decreases addresses.len() - from,
{
    if from < addresses.len() {
        let address = addresses[from];
        if address != 0 {
            let next = state.free(address);
            assert(state.intact(address));
            heap_laws::law_free(state, address);
            assert forall|i: int|
                from + 1 <= i < addresses.len() && #[trigger] addresses[i] != 0 implies next.intact(
                addresses[i],
            ) && next.block_at(addresses[i])->0.requested_size == stress_size(i) by {
                assert(addresses[from] != addresses[i]);
                assert(state.intact(addresses[i]));
                assert(next.block_at(addresses[i]) == state.block_at(addresses[i]));
                assert(next.intact(addresses[i]) == state.intact(addresses[i]));
            }
            lemma_cleaned(next, addresses, from + 1);
        } else {
            lemma_cleaned(state, addresses, from + 1);
        }
    }
}

/// Frees every address that is not zero.
pub fn cleanup_addresses(heap: &mut KernelHeap, memory: &[u8], addresses: &[u64]) -> (r: bool)
    requires
        old(heap)@.inv(),
        old(heap)@.backed_by(memory@),
    ensures
        r == cleans_up(state_of(old(heap), memory@), addresses@, 0),
        state_of(final(heap), memory@) == cleaned(state_of(old(heap), memory@), addresses@, 0),
        final(heap)@.inv(),
        final(heap)@.backed_by(memory@),
{
    let ghost before = state_of(heap, memory@);
    let mut ok: bool = true;
    let mut index: usize = 0;
    while index < addresses.len()
        invariant
            index <= addresses@.len(),
            heap@.inv(),
            heap@.backed_by(memory@),
            cleaned(before, addresses@, 0) == cleaned(
                state_of(heap, memory@),
                addresses@,
                index as int,
            ),
            cleans_up(before, addresses@, 0) == (ok && cleans_up(
                state_of(heap, memory@),
                addresses@,
                index as int,
            )),
        decreases addresses@.len() - index,
    {
        let address: u64 = addresses[index];
        let ghost here = state_of(heap, memory@);
        if address != 0 {
            if heap.free(memory, address).is_err() {
                ok = false;
            }
            assert(state_of(heap, memory@) =~= here.free(address));
        }
        index = index + 1;
    }
    ok
}

fn stress_sizes(index: usize) -> (r: (u64, u64))
    requires
        index < 8,
    ensures
        r.0 == stress_size(index as int),
        r.1 == stress_align(index as int),
{
    let sizes: [u64; 8] = [24, 40, 56, 72, 88, 104, 120, 136];
    let aligns: [u64; 8] = [8, 16, 32, 64, 8, 16, 32, 64];
    (sizes[index], aligns[index])
}

/// The allocations of the stress test. Where there is no room for one of them, those before it
/// are freed and `false` is returned.
fn stress_allocate(
    heap: &mut KernelHeap,
    memory: &mut [u8],
    addresses: &mut [u64; 8],
) -> (r: bool)
    requires
        old(heap)@.inv(),
        old(heap)@.backed_by(old(memory)@),
        old(addresses)@ == Seq::new(8, |i: int| 0u64),
    ensures
        final(heap)@.inv(),
        final(heap)@.backed_by(final(memory)@),
        (state_of(final(heap), final(memory)@), final(addresses)@, r) == stress_fill(
            state_of(old(heap), old(memory)@),
            old(addresses)@,
            0,
        ),
        r ==> ({
            let before = state_of(old(heap), old(memory)@);
            let after = state_of(final(heap), final(memory)@);
            &&& after.ok()
            &&& held(after, final(addresses)@, 0, 8)
            &&& forall|i: int| 0 <= i < 8 ==> #[trigger] final(addresses)@[i] != 0
            &&& after.heap.region == before.heap.region
            &&& after.all_intact() == before.all_intact()
            &&& after.sentinel() == before.sentinel()
            &&& after.live_count() == before.live_count() + 8
            &&& after.live_bytes() == before.live_bytes() + 640
        }),
{
    let ghost before = state_of(heap, memory@);
    let ghost zeros = addresses@;
    let mut index: usize = 0;
    while index < 8
        invariant
            index <= 8,
            before == state_of(old(heap), old(memory)@),
            zeros == old(addresses)@,
            heap@.inv(),
            heap@.backed_by(memory@),
            before.heap.inv(),
            heap@.initialized == before.heap.initialized,
            index > 0 ==> heap@.initialized,
            addresses@.len() == 8,
            stress_fill(before, zeros, 0) == stress_fill(
                state_of(heap, memory@),
                addresses@,
                index as int,
            ),
            held(state_of(heap, memory@), addresses@, 0, index as int),
            forall|i: int| 0 <= i < index ==> #[trigger] addresses@[i] != 0,
            forall|i: int| index <= i < 8 ==> #[trigger] addresses@[i] == 0,
            heap@.region == before.heap.region,
            state_of(heap, memory@).all_intact() == before.all_intact(),
            state_of(heap, memory@).sentinel() == before.sentinel(),
            state_of(heap, memory@).live_count() == before.live_count() + index,
            state_of(heap, memory@).live_bytes() == before.live_bytes() + 24 * index + 8 * index * (
            index - 1),
        decreases 8 - index,
    {
        let (size, align) = stress_sizes(index);
        let ghost here = state_of(heap, memory@);
        let ghost list = addresses@;
        proof {
            if here.heap.initialized {
                heap_laws::law_alloc(here, size, align);
            }
        }
        let address: u64 = match heap.allocate(memory, size, align) {
            None => {
                assert(state_of(heap, memory@) =~= here.allocate(size, align));
                let given_out: [u64; 8] = *addresses;
                cleanup_addresses(heap, memory, &given_out);
                return false;
            },
            Some(address) => address,
        };
        let ghost taken = here.allocate(size, align);
        proof {
            assert(state_of(heap, memory@) =~= taken);
            heap_laws::law_payload_is_free_to_use(
                taken,
                address,
                address,
                heap_laws::pattern(index as u8, size),
            );
        }
        addresses[index] = address;
        let written: bool = write_and_verify_pattern(heap, memory, address, size, index as u8);
        let ghost next = taken.fill(address, size, index as u8);
        proof {
            assert(state_of(heap, memory@) =~= next);
            assert forall|i: int| 0 <= i < index + 1 && #[trigger] addresses@[i] != 0 implies {
                next.intact(addresses@[i]) && next.block_at(addresses@[i])->0.requested_size
                    == stress_size(i)
            } by {
                if i < index {
                    assert(addresses@[i] == list[i]);
                    assert(here.intact(list[i]));
                    assert(taken.intact(list[i]) == here.intact(list[i]));
                    assert(taken.block_at(list[i]) == here.block_at(list[i]));
                    assert(next.intact(list[i]) == taken.intact(list[i]));
                } else {
                    assert(taken.intact(address));
                    assert(next.intact(address));
                }
            }
            assert forall|i: int, j: int|
                0 <= i < j < index + 1 && #[trigger] addresses@[i] != 0 && #[trigger] addresses@[j]
                    != 0 implies addresses@[i] != addresses@[j] by {
                assert(addresses@[i] == list[i]);
                assert(here.intact(list[i]));
                if j < index {
                    assert(addresses@[j] == list[j]);
                    assert(list[i] != list[j]);
                }
            }
            assert(8 * (index + 1) * index == 8 * index * (index - 1) + 16 * index)
                by (nonlinear_arith);
        }
        if address % align != 0 || !written {
            let given_out: [u64; 8] = *addresses;
            cleanup_addresses(heap, memory, &given_out);
            return false;
        }
        index = index + 1;
    }
    true
}

/// An allocation keeps the heap in order.
proof fn lemma_alloc_keeps_order(state: HeapState, size: u64, align: u64)
    requires
        state.ok(),
    ensures
        state.allocate(size, align).ok(),
{
    heap_laws::law_alloc(state, size, align);
}

/// Freeing the second, fourth and sixth block of the stress test.
proof fn lemma_holes(full: HeapState, list: Seq<u64>)
    requires
        full.ok(),
        list.len() == 8,
        held(full, list, 0, 8),
        forall|i: int| 0 <= i < 8 ==> #[trigger] list[i] != 0,
    ensures
        ({
            let one = full.free(list[1]);
            let two = one.free(list[3]);
            let three = two.free(list[5]);
            &&& full.answer(list[1]) is Ok
            &&& one.answer(list[3]) is Ok
            &&& two.answer(list[5]) is Ok
            &&& one.ok()
            &&& two.ok()
            &&& three.ok()
            &&& three.heap.region == full.heap.region
            &&& three.memory == full.memory
            &&& three.all_intact() == full.all_intact()
            &&& three.live_count() == full.live_count() - 3
            &&& three.live_bytes() == full.live_bytes() - 216
            &&& held(three, list.update(1, 0).update(3, 0).update(5, 0), 0, 8)
        }),
{
    let left = list.update(1, 0).update(3, 0).update(5, 0);
    let one = full.free(list[1]);
    let two = one.free(list[3]);
    let three = two.free(list[5]);
    assert(list[1] != list[3] && list[1] != list[5] && list[3] != list[5]);
    assert(full.intact(list[1]) && full.intact(list[3]) && full.intact(list[5]));
    heap_laws::law_free(full, list[1]);
    assert(one.intact(list[3]) && one.intact(list[5]));
    assert(one.block_at(list[3]) == full.block_at(list[3]));
    assert(one.block_at(list[5]) == full.block_at(list[5]));
    heap_laws::law_free(one, list[3]);
    assert(two.intact(list[5]));
    assert(two.block_at(list[5]) == one.block_at(list[5]));
    heap_laws::law_free(two, list[5]);
    assert forall|i: int| 0 <= i < 8 && #[trigger] left[i] != 0 implies three.intact(left[i])
        && three.block_at(left[i])->0.requested_size == stress_size(i) by {
        assert(left[i] == list[i]);
        assert(full.intact(list[i]));
        assert(list[i] != list[1] && list[i] != list[3] && list[i] != list[5]);
        assert(one.block_at(list[i]) == full.block_at(list[i]) && one.intact(list[i]));
        assert(two.block_at(list[i]) == one.block_at(list[i]) && two.intact(list[i]));
        assert(three.block_at(list[i]) == two.block_at(list[i]) && three.intact(list[i]));
    }
}

/// What the stress test holds once three of its blocks are freed.
proof fn lemma_left_sums(list: Seq<u64>)
    requires
        list.len() == 8,
        forall|i: int| 0 <= i < 8 ==> #[trigger] list[i] != 0,
    ensures
        held_count(list.update(1, 0).update(3, 0).update(5, 0), 0) == 5,
        held_bytes(list.update(1, 0).update(3, 0).update(5, 0), 0) == 424,
{
    reveal_with_fuel(held_count, 9);
    reveal_with_fuel(held_bytes, 9);
}

/// Giving out, filling and freeing two more blocks while others are held.
proof fn lemma_extra(holes: HeapState, left: Seq<u64>, first: u64, second: u64)
    requires
        holes.ok(),
        left.len() == 8,
        held(holes, left, 0, 8),
        holes.address(48, 16) == Some(first),
        holes.allocate(48, 16).address(96, 32) == Some(second),
    ensures
        ({
            let taken = holes.allocate(48, 16).allocate(96, 32);
            let written = taken.fill(first, 48, 0x77).fill(second, 96, 0x88);
            let one = written.free(second);
            let end = one.free(first);
            &&& taken.ok()
            &&& taken.heap.region == holes.heap.region
            &&& taken.memory.len() == holes.memory.len()
            &&& taken.heap.region.base <= first
            &&& first + 48 <= taken.heap.region.base + taken.memory.len()
            &&& taken.heap.region.base <= second
            &&& second + 96 <= taken.heap.region.base + taken.memory.len()
            &&& first % 16 == 0
            &&& second % 32 == 0
            &&& written.ok()
            &&& written.answer(second) is Ok
            &&& one.ok()
            &&& one.answer(first) is Ok
            &&& end.ok()
            &&& end.heap.region == holes.heap.region
            &&& end.sentinel() == holes.sentinel()
            &&& end.all_intact() == holes.all_intact()
            &&& end.live_count() == holes.live_count()
            &&& end.live_bytes() == holes.live_bytes()
            &&& held(end, left, 0, 8)
        }),
{
    let s5 = holes.allocate(48, 16);
    let s6 = s5.allocate(96, 32);
    let s7 = s6.fill(first, 48, 0x77);
    let s8 = s7.fill(second, 96, 0x88);
    let s9 = s8.free(second);
    let s10 = s9.free(first);
    heap_laws::law_alloc(holes, 48, 16);
    heap_laws::law_alloc(s5, 96, 32);
    assert(s5.intact(first) && s6.intact(first) && s6.intact(second));
    assert(s6.block_at(first) == s5.block_at(first));
    assert(first != second);
    heap_laws::law_payload_is_free_to_use(s6, first, first, heap_laws::pattern(0x77, 48));
    heap_laws::law_payload_is_free_to_use(s7, second, second, heap_laws::pattern(0x88, 96));
    assert(s7.intact(first) && s7.intact(second));
    assert(s8.intact(first) && s8.intact(second));
    heap_laws::law_free(s8, second);
    assert(s9.intact(first));
    assert(s9.block_at(first) == s8.block_at(first));
    heap_laws::law_free(s9, first);
    assert forall|i: int| 0 <= i < 8 && #[trigger] left[i] != 0 implies s10.intact(left[i])
        && s10.block_at(left[i])->0.requested_size == stress_size(i) by {
        assert(holes.intact(left[i]));
        assert(left[i] != first);
        assert(s5.block_at(left[i]) == holes.block_at(left[i]) && s5.intact(left[i]));
        assert(left[i] != second);
        assert(s6.block_at(left[i]) == s5.block_at(left[i]) && s6.intact(left[i]));
        assert(s7.intact(left[i]) && s8.intact(left[i]));
        assert(s9.block_at(left[i]) == s8.block_at(left[i]) && s9.intact(left[i]));
        assert(s10.block_at(left[i]) == s9.block_at(left[i]) && s10.intact(left[i]));
    }
}

/// Gives out eight blocks, frees three of them, gives out two more into the holes, and frees
/// everything again; `guards_ok` says whether the guard pages beside the heap hold.
///
/// The test passes exactly where there is room for it, the canaries of whatever else is given
/// out stand, the sentinel stands, and the guard pages hold.
pub fn stress(heap: &mut KernelHeap, memory: &mut [u8], guards_ok: bool) -> (r: bool)
    requires
        old(heap)@.inv(),
        old(heap)@.backed_by(old(memory)@),
    ensures
        ({
            let before = state_of(old(heap), old(memory)@);
            let (end, room) = stress_end(before);
            &&& state_of(final(heap), final(memory)@) == if room {
                finally_checked(end, guards_ok)
            } else {
                end
            }
            &&& r == (room && before.all_intact() && before.sentinel() && guards_ok)
        }),
        final(heap)@.inv(),
{
    let ghost s0 = state_of(heap, memory@);
    let before: Snapshot = heap.snapshot(memory);
    let mut addresses: [u64; 8] = [0; 8];
    assert(addresses@ =~= Seq::new(8, |i: int| 0u64));
    if !stress_allocate(heap, memory, &mut addresses) {
        return false;
    }
    let ghost s1 = state_of(heap, memory@);
    let ghost list = addresses@;
    let ghost left = list.update(1, 0).update(3, 0).update(5, 0);
    let ghost s2 = s1.free(list[1]);
    let ghost s3 = s2.free(list[3]);
    let ghost s4 = s3.free(list[5]);
    proof {
        lemma_holes(s1, list);
    }
    let first_freed: bool = heap.free(memory, addresses[1]).is_ok();
    assert(state_of(heap, memory@) =~= s2);
    let second_freed: bool = heap.free(memory, addresses[3]).is_ok();
    assert(state_of(heap, memory@) =~= s3);
    let third_freed: bool = heap.free(memory, addresses[5]).is_ok();
    assert(state_of(heap, memory@) =~= s4);
    if !first_freed || !second_freed || !third_freed {
        cleanup_addresses(heap, memory, &addresses);
        return false;
    }
    addresses[1] = 0;
    addresses[3] = 0;
    addresses[5] = 0;
    proof {
        assert(addresses@ =~= left);
        lemma_alloc_keeps_order(s4, 48, 16);
    }
    let extra_one: u64 = match heap.allocate(memory, 48, 16) {
        None => {
            assert(state_of(heap, memory@) =~= s4.allocate(48, 16));
            cleanup_addresses(heap, memory, &addresses);
            return false;
        },
        Some(address) => address,
    };
    let ghost s5 = s4.allocate(48, 16);
    proof {
        assert(state_of(heap, memory@) =~= s5);
        lemma_alloc_keeps_order(s5, 96, 32);
    }
    let extra_two: u64 = match heap.allocate(memory, 96, 32) {
        None => {
            let ghost failed = s5.allocate(96, 32);
            assert(state_of(heap, memory@) =~= failed);
            let _ = heap.free(memory, extra_one);
            assert(state_of(heap, memory@) =~= failed.free(extra_one));
            cleanup_addresses(heap, memory, &addresses);
            return false;
        },
        Some(address) => address,
    };
    let ghost s6 = s5.allocate(96, 32);
    let ghost s7 = s6.fill(extra_one, 48, 0x77);
    let ghost s8 = s7.fill(extra_two, 96, 0x88);
    let ghost s9 = s8.free(extra_two);
    let ghost s10 = s9.free(extra_one);
    proof {
        assert(state_of(heap, memory@) =~= s6);
        lemma_extra(s4, left, extra_one, extra_two);
        lemma_cleaned(s10, left, 0);
    }
    let extra_ok: bool = extra_one % 16 == 0 && extra_two % 32 == 0 && write_and_verify_pattern(
        heap,
        memory,
        extra_one,
        48,
        0x77,
    ) && write_and_verify_pattern(heap, memory, extra_two, 96, 0x88);
    assert(state_of(heap, memory@) =~= s8);
    let extra_two_freed: bool = heap.free(memory, extra_two).is_ok();
    assert(state_of(heap, memory@) =~= s9);
    let extra_one_freed: bool = heap.free(memory, extra_one).is_ok();
    assert(state_of(heap, memory@) =~= s10);
    let addresses_freed: bool = cleanup_addresses(heap, memory, &addresses);
    let ghost s11 = cleaned(s10, left, 0);
    proof {
        assert(state_of(heap, memory@) =~= s11);
        assert(stress_end(s0) == (s11, true));
        heap_laws::law_metadata_always_ok(s11);
        lemma_left_sums(list);
        assert(s11.live_count() == s0.live_count());
        assert(s11.live_bytes() == s0.live_bytes());
        assert(s11.all_intact() == s0.all_intact());
        assert(s11.sentinel() == s0.sentinel());
    }
    let cleanup: bool = extra_two_freed && extra_one_freed && addresses_freed;
    let after: Snapshot = heap.snapshot(memory);
    let passed: bool = extra_ok && cleanup && after.active_allocations
        == before.active_allocations && after.allocated_bytes == before.allocated_bytes
        && after.metadata_ok && after.allocation_canaries_ok && heap.corruption_check(
        memory,
        guards_ok,
    );
    assert(state_of(heap, memory@) =~= finally_checked(s11, guards_ok));
    passed
}

} // verus!
