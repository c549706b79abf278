//! What freeing gives back and remembers, how damage shows, and how a heap starts.
use crate::heap_laws as laws;
use crate::heap_laws::HeapState;
use crate::heap_model as model;
use crate::heap_model::{FreeError, HeapBlock, HeapModel};
use crate::heap_record_laws as records;
use crate::{bytes, heap, heap_proofs, paging};
use vstd::prelude::*;

verus! {

/// No two free blocks of a heap in use touch: what is free side by side is one block.
pub proof fn law_free_blocks_never_touch(heap: HeapModel, i: int, j: int)
    requires
        heap.inv(),
        0 <= i < 96,
        0 <= j < 96,
        heap.blocks[i].active && !heap.blocks[i].allocated,
        heap.blocks[j].active && !heap.blocks[j].allocated,
    ensures
        heap.blocks[i].offset + heap.blocks[i].size != heap.blocks[j].offset,
{
    if heap.initialized {
        heap_proofs::lemma_sound(heap.blocks[i], heap.region.size);
        heap_proofs::lemma_sound(heap.blocks[j], heap.region.size);
        heap_proofs::lemma_region_bound(heap.region);
    }
}

/// The blocks of a heap in use are spread over its region, one of them given back or not.
proof fn lemma_spread(heap: HeapModel, index: int)
    requires
        heap.inv(),
        heap.initialized,
        0 <= index < 96,
    ensures
        records::spread(heap.blocks_after_free(index), heap.region.size),
{
    let blocks = heap.blocks;
    let freed = heap.blocks_after_free(index);
    assert forall|i: int| 0 <= i < freed.len() && (#[trigger] freed[i]).active implies 0
        < freed[i].size && freed[i].offset + freed[i].size <= heap.region.size by {
        assert(model::sound(blocks[i], heap.region.size));
    }
    assert forall|i: int, j: int|
        0 <= i < j < freed.len() && (#[trigger] freed[i]).active && (
        #[trigger] freed[j]).active implies model::apart(freed[i], freed[j]) by {
        assert(model::apart(blocks[i], blocks[j]));
    }
}

/// Freeing an address gives back every byte that its block had taken, and no other: those bytes
/// are free afterwards, whatever was free stays free, and nothing else becomes free.
#[verifier::rlimit(40)]
pub proof fn law_frees_return_all_bytes(state: HeapState, address: u64, offset: int)
    requires
        state.ok(),
        state.intact(address),
    ensures
        records::free_byte(state.free(address).heap.blocks, offset) <==> records::free_byte(
            state.heap.blocks,
            offset,
        ) || records::covers(state.block_at(address)->0, offset),
{
    laws::lemma_block_at(state, address);
    let heap = state.heap;
    let index = heap.find_address(address)->0;
    let blocks = heap.blocks;
    let freed = heap.blocks_after_free(index);
    heap_proofs::lemma_release(heap, index, address);
    lemma_spread(heap, index);
    records::law_coalescing(freed, heap.region.size);
    assert(records::free_byte(freed, offset) <==> records::free_byte(blocks, offset)
        || records::covers(blocks[index], offset)) by {
        if records::free_byte(freed, offset) {
            let i = choose|i: int|
                0 <= i < freed.len() && model::is_free(#[trigger] freed[i]) && records::covers(
                    freed[i],
                    offset,
                );
            if i != index {
                assert(model::is_free(blocks[i]) && records::covers(blocks[i], offset));
            }
        }
        if records::free_byte(blocks, offset) {
            let i = choose|i: int|
                0 <= i < blocks.len() && model::is_free(#[trigger] blocks[i]) && records::covers(
                    blocks[i],
                    offset,
                );
            assert(model::is_free(freed[i]) && records::covers(freed[i], offset));
        }
        if records::covers(blocks[index], offset) {
            assert(model::is_free(freed[index]) && records::covers(freed[index], offset));
        }
    }
    assert(state.free(address).heap.blocks == model::coalesced(freed));
}

/// One more, or the largest number.
pub open spec fn one_more_if(count: u64, flag: bool) -> int {
    if flag && count < u64::MAX {
        count + 1
    } else {
        count as int
    }
}

/// Every attempt to free is counted: one that succeeds as a free, any other as a failed free and,
/// by its error, as a double free, an invalid free or a corruption that was detected. Nothing
/// that was never given out, and nothing twice, is taken back.
#[verifier::rlimit(40)]
pub proof fn law_frees_are_counted(heap: HeapModel, memory: Seq<u8>, address: u64)
    requires
        heap.inv(),
    ensures
        ({
            let after = heap.free_model(memory, address);
            let answer = heap.free_result(memory, address);
            &&& after.frees == one_more_if(heap.frees, answer is Ok)
            &&& after.failed_frees == one_more_if(heap.failed_frees, answer is Err)
            &&& after.double_frees == one_more_if(
                heap.double_frees,
                answer == Err::<(), FreeError>(FreeError::DoubleFree),
            )
            &&& after.invalid_frees == one_more_if(
                heap.invalid_frees,
                answer == Err::<(), FreeError>(FreeError::InvalidPointer),
            )
            &&& after.corruption_detections == one_more_if(
                heap.corruption_detections,
                answer == Err::<(), FreeError>(FreeError::Corruption),
            )
            &&& after.allocations == heap.allocations
            &&& after.failed_allocations == heap.failed_allocations
            &&& after.high_watermark == heap.high_watermark
            &&& after.corruption_checks == heap.corruption_checks
            &&& after.corruption_failures == heap.corruption_failures
            &&& after.region == heap.region
            &&& after.initialized == heap.initialized
            &&& after.mapped_pages == heap.mapped_pages
            &&& !heap.initialized <==> answer == Err::<(), FreeError>(FreeError::NotInitialized)
            &&& answer is Err ==> after.coalesces == heap.coalesces && after.blocks == heap.blocks
            &&& answer is Ok || answer == Err::<(), FreeError>(FreeError::Corruption) ==> exists|
                i: int,
            |
                0 <= i < 96 && (#[trigger] heap.blocks[i]).active && heap.blocks[i].allocated
                    && address == heap.region.base + heap.blocks[i].payload_offset
        }),
{
    if heap.initialized && address >= heap.region.base {
        let wanted = model::live_at(address - heap.region.base);
        heap_proofs::lemma_index_where(heap.blocks, wanted, 0);
        if heap.find_address(address) is Some {
            let i = heap.find_address(address)->0;
            assert(model::is_live(heap.blocks[i]));
            heap_proofs::lemma_release(heap, i, address);
        }
    }
}

/// The state after `addresses` were freed, one after the other.
pub open spec fn after_frees(state: HeapState, addresses: Seq<u64>) -> HeapState
    decreases addresses.len(),
{
    if addresses.len() == 0 {
        state
    } else {
        after_frees(state, addresses.drop_last()).free(addresses.last())
    }
}

/// Each of `addresses` could be freed when its turn came.
pub open spec fn all_freed(state: HeapState, addresses: Seq<u64>) -> bool {
    forall|i: int|
        0 <= i < addresses.len() ==> (#[trigger] after_frees(state, addresses.take(i)).intact(
            addresses[i],
        ))
}

#[verifier::rlimit(40)]
proof fn lemma_ring(state: HeapState, addresses: Seq<u64>)
    requires
        state.ok(),
        all_freed(state, addresses),
        addresses.len() <= 16,
    ensures
        ({
            let after = after_frees(state, addresses);
            let start = state.heap.recent_free_index;
            &&& after.ok()
            &&& after.heap.recent_free_index == (start + addresses.len()) % 16
            &&& forall|i: int|
                0 <= i < addresses.len() ==> after.heap.recent_frees[(start + i) % 16]
                    == #[trigger] addresses[i] && addresses[i] != 0
        }),
    decreases addresses.len(),
{
    if addresses.len() > 0 {
        let less = addresses.drop_last();
        let end = addresses.len() - 1;
        assert forall|i: int| 0 <= i < less.len() implies (#[trigger] after_frees(
            state,
            less.take(i),
        ).intact(less[i])) by {
            assert(less.take(i) =~= addresses.take(i));
            assert(after_frees(state, addresses.take(i)).intact(addresses[i]));
        }
        lemma_ring(state, less);
        assert(addresses.take(end) =~= less);
        let before = after_frees(state, less);
        let after = after_frees(state, addresses);
        let start = state.heap.recent_free_index;
        assert(before.intact(addresses[end])) by {
            assert(after_frees(state, addresses.take(end)).intact(addresses[end]));
        }
        laws::law_free(before, addresses[end]);
        laws::lemma_block_at(before, addresses[end]);
        let place = before.heap.recent_free_index;
        assert(after.heap.recent_frees == before.heap.recent_frees.update(place, addresses[end]));
        assert forall|i: int| 0 <= i < addresses.len() implies after.heap.recent_frees[(start + i)
            % 16] == #[trigger] addresses[i] && addresses[i] != 0 by {
            if i < end {
                assert(less[i] == addresses[i]);
                assert((start + i) % 16 != (start + end) % 16);
            }
        }
    }
}

/// The last sixteen addresses that were freed are remembered: freeing one of them again is
/// answered as a double free, as long as it was not given out anew. After sixteen frees nothing
/// older is remembered.
pub proof fn law_last_frees_are_remembered(state: HeapState, addresses: Seq<u64>, i: int)
    requires
        state.ok(),
        all_freed(state, addresses),
        addresses.len() <= 16,
    ensures
        ({
            let after = after_frees(state, addresses);
            &&& 0 <= i < addresses.len() ==> after.heap.recently_freed(addresses[i])
            &&& 0 <= i < addresses.len() && after.block_at(addresses[i]) is None ==> after.answer(
                addresses[i],
            ) == Err::<(), FreeError>(FreeError::DoubleFree)
            &&& addresses.len() == 16 ==> forall|other: u64|
                #[trigger] after.heap.recently_freed(other) ==> addresses.contains(other)
        }),
{
    lemma_ring(state, addresses);
    let after = after_frees(state, addresses);
    let start = state.heap.recent_free_index;
    if 0 <= i < addresses.len() {
        assert(after.heap.recent_frees[(start + i) % 16] == addresses[i]);
        assert(after.heap.recent_frees.contains(addresses[i]));
    }
    if addresses.len() == 16 {
        assert forall|other: u64| #[trigger] after.heap.recently_freed(
            other,
        ) implies addresses.contains(other) by {
            let k = choose|k: int|
                0 <= k < after.heap.recent_frees.len() && after.heap.recent_frees[k] == other;
            let j = (k - start + 16) % 16;
            assert((start + j) % 16 == k);
            assert(addresses[j] == other);
        }
    }
}

/// Numbers that are equal have the same bytes.
proof fn lemma_le_at_exact(s: Seq<u8>, t: Seq<u8>, at: int, width: nat)
    requires
        bytes::le_at(s, at, width) == bytes::le_at(t, at, width),
    ensures
        forall|i: int| at <= i < at + width ==> #[trigger] s[i] == t[i],
    decreases width,
{
    if width > 0 {
        lemma_le_at_exact(s, t, at + 1, (width - 1) as nat);
    }
}

/// A change to any of the sixteen bytes beside an allocation, the eight before its payload and
/// the eight behind, is noticed: the allocation is not intact any more, freeing it is answered as
/// a corruption, and the heap is not healthy. A change to its payload is not a fault.
#[verifier::rlimit(40)]
pub proof fn law_every_canary_byte_counts(
    state: HeapState,
    address: u64,
    changed: Seq<u8>,
    at: int,
)
    requires
        state.ok(),
        state.intact(address),
        changed.len() == state.memory.len(),
        0 <= at < changed.len(),
        changed[at] != state.memory[at],
    ensures
        ({
            let place = address - state.heap.region.base;
            let size = state.block_at(address)->0.requested_size;
            let after = HeapState { memory: changed, ..state };
            &&& place - 8 <= at < place || place + size <= at < place + size + 8 ==> {
                &&& !after.intact(address)
                &&& after.answer(address) == Err::<(), FreeError>(FreeError::Corruption)
                &&& !heap::healthy(after.heap, changed)
            }
            &&& place <= at < place + size && (forall|i: int|
                0 <= i < changed.len() && i != at ==> changed[i] == state.memory[i])
                ==> after.intact(address) && after.answer(address) is Ok
        }),
{
    laws::lemma_block_at(state, address);
    let block = state.block_at(address)->0;
    let place = address - state.heap.region.base;
    let end = place + block.requested_size;
    let after = HeapState { memory: changed, ..state };
    heap_proofs::lemma_sound(block, state.heap.region.size);
    if bytes::le_at(changed, place - 8, 8) == bytes::le_at(state.memory, place - 8, 8) {
        lemma_le_at_exact(changed, state.memory, place - 8, 8);
    }
    if bytes::le_at(changed, end, 8) == bytes::le_at(state.memory, end, 8) {
        lemma_le_at_exact(changed, state.memory, end, 8);
    }
    if place <= at < end && (forall|i: int|
        0 <= i < changed.len() && i != at ==> changed[i] == state.memory[i]) {
        bytes::lemma_le_at_frame(changed, place - 8, state.memory, place - 8, 8);
        bytes::lemma_le_at_frame(changed, end, state.memory, end, 8);
    }
    let index = state.heap.find_address(address)->0;
    assert(model::is_live(after.heap.blocks[index]));
}

/// A heap that keeps its invariant is healthy exactly where it is in use, its first 64 bytes are
/// the sentinel, and the canaries beside every allocation stand.
pub proof fn law_health_is_sentinel_and_canaries(state: HeapState)
    requires
        state.ok(),
    ensures
        heap::healthy(state.heap, state.memory) <==> {
            &&& forall|i: int|
                0 <= i < 64 ==> #[trigger] state.memory[i] == 0x5au8 ^ ((17 * i) % 256) as u8
            &&& forall|address: u64|
                #![trigger state.block_at(address)]
                state.block_at(address) is Some ==> state.intact(address)
        },
{
    heap_proofs::lemma_metadata_ok(state.heap);
    heap_proofs::lemma_region_bound(state.heap.region);
    laws::lemma_all_intact(state);
    let start = state.memory.take(64);
    if start == heap::sentinel() {
        assert forall|i: int| 0 <= i < 64 implies #[trigger] state.memory[i] == 0x5au8 ^ ((17 * i)
            % 256) as u8 by {
            assert(start[i] == heap::sentinel_byte(i));
        }
    }
    if forall|i: int|
        0 <= i < 64 ==> #[trigger] state.memory[i] == 0x5au8 ^ ((17 * i) % 256) as u8 {
        assert forall|i: int| 0 <= i < 64 implies start[i] == heap::sentinel()[i] by {
            assert(start[i] == state.memory[i]);
        }
        assert(start =~= heap::sentinel());
    }
}

/// Every check counts, and a check that fails counts as a failure too.
pub proof fn law_checks_are_counted(before: HeapModel, ok: bool)
    ensures
        ({
            let after = heap::checked_model(before, ok);
            &&& after.corruption_checks == one_more_if(before.corruption_checks, true)
            &&& after.corruption_failures == one_more_if(before.corruption_failures, !ok)
            &&& after == (HeapModel {
                corruption_checks: after.corruption_checks,
                corruption_failures: after.corruption_failures,
                ..before
            })
        }),
{
}

proof fn lemma_mapped(
    results: Seq<Result<u64, paging::MapError>>,
    limit: int,
    from: int,
)
    requires
        0 <= from <= limit,
        from <= results.len(),
    ensures
        ({
            let mapped = heap::mapped_before_failure(results, limit, from);
            &&& from <= mapped <= limit
            &&& mapped <= results.len()
            &&& forall|i: int| from <= i < mapped ==> (#[trigger] results[i]) is Ok
            &&& mapped < limit ==> mapped >= results.len() || results[mapped] is Err
        }),
    decreases limit - from,
{
    if from < limit && from < results.len() && results[from] is Ok {
        lemma_mapped(results, limit, from + 1);
    }
}

/// A heap is taken into use exactly where every page of its region could be mapped; otherwise it
/// counts the pages up to the first that could not. A heap that was just taken into use has
/// nothing given out and remembers no address. Every byte behind the first 64 is free; those hold
/// the sentinel, and no other byte was written.
#[verifier::rlimit(40)]
pub proof fn law_fresh_heaps_are_all_free(
    before: HeapModel,
    memory: Seq<u8>,
    results: Seq<Result<u64, paging::MapError>>,
    offset: int,
)
    requires
        before.inv(),
        !before.initialized,
    ensures
        ({
            let after = heap::init_model(before, results);
            let region = heap::init_memory(before, memory, results);
            let pages = before.region.size as int / 4096;
            &&& after.initialized <==> results.len() >= pages && forall|i: int|
                0 <= i < pages ==> (#[trigger] results[i]) is Ok
            &&& after.mapped_pages <= pages
            &&& after.mapped_pages <= results.len()
            &&& forall|i: int| 0 <= i < after.mapped_pages ==> (#[trigger] results[i]) is Ok
            &&& after.mapped_pages < pages ==> after.mapped_pages >= results.len()
                || results[after.mapped_pages as int] is Err
            &&& region.len() == memory.len()
            &&& !after.initialized ==> region == memory && after.blocks == before.blocks
            &&& after.initialized ==> {
                &&& after.inv()
                &&& records::free_byte(after.blocks, offset) <==> 64 <= offset < before.region.size
                &&& forall|i: int| 0 <= i < 96 ==> !(#[trigger] after.blocks[i]).allocated
                &&& forall|address: u64| !#[trigger] after.recently_freed(address)
                &&& after.high_watermark == 0
                &&& forall|i: int|
                    0 <= i < memory.len() ==> #[trigger] region[i] == if i < 64 {
                        0x5au8 ^ ((17 * i) % 256) as u8
                    } else {
                        memory[i]
                    }
            }
            &&& after.region == before.region
            &&& after.allocations == before.allocations
            &&& after.frees == before.frees
        }),
{
    let after = heap::init_model(before, results);
    let pages = before.region.pages();
    lemma_mapped(results, pages, 0);
    heap_proofs::lemma_region_bound(before.region);
    if after.initialized {
        heap::lemma_fresh(before.region);
        let blocks = after.blocks;
        if 64 <= offset < before.region.size {
            assert(model::is_free(blocks[0]) && records::covers(blocks[0], offset));
        }
        if records::free_byte(blocks, offset) {
            let i = choose|i: int|
                0 <= i < blocks.len() && model::is_free(#[trigger] blocks[i]) && records::covers(
                    blocks[i],
                    offset,
                );
            assert(i == 0);
        }
        assert forall|address: u64| !#[trigger] after.recently_freed(address) by {
            if after.recently_freed(address) {
                let k = choose|k: int| 0 <= k < 16 && after.recent_frees[k] == address;
                assert(after.recent_frees[k] == 0);
            }
        }
    }
}

/// A heap that is in use already is not taken into use again.
pub proof fn law_heaps_start_once(
    before: HeapModel,
    memory: Seq<u8>,
    results: Seq<Result<u64, paging::MapError>>,
)
    requires
        before.initialized,
    ensures
        heap::init_model(before, results) == before,
        heap::init_memory(before, memory, results) == memory,
{
}

/// The numbers that a walk over the records finds grow block by block: a block in use counts with
/// the bytes that were asked for, a free one with its size, and the largest free block is the
/// largest of them.
pub proof fn law_statistics_grow_by_the_block(blocks: Seq<HeapBlock>, block: HeapBlock)
    ensures
        ({
            let more = blocks.push(block);
            let live = block.active && block.allocated;
            let free = block.active && !block.allocated;
            let size = block.size as int;
            &&& model::sum_of(more, model::requested_bytes()) == model::sum_of(
                blocks,
                model::requested_bytes(),
            ) + if live {
                block.requested_size as int
            } else {
                0
            }
            &&& model::sum_of(more, model::free_bytes()) == model::sum_of(
                blocks,
                model::free_bytes(),
            ) + if free {
                size
            } else {
                0
            }
            &&& model::sum_of(more, model::one_if_live()) == model::sum_of(
                blocks,
                model::one_if_live(),
            ) + if live {
                1int
            } else {
                0
            }
            &&& model::sum_of(more, model::one_if_free()) == model::sum_of(
                blocks,
                model::one_if_free(),
            ) + if free {
                1int
            } else {
                0
            }
            &&& model::sum_of(more, model::one_if_active()) == model::sum_of(
                blocks,
                model::one_if_active(),
            ) + if block.active {
                1int
            } else {
                0
            }
            &&& model::largest_free(more) >= model::largest_free(blocks)
            &&& free ==> model::largest_free(more) >= size && (model::largest_free(more) == size
                || model::largest_free(more) == model::largest_free(blocks))
            &&& !free ==> model::largest_free(more) == model::largest_free(blocks)
        }),
        model::sum_of(Seq::empty(), model::requested_bytes()) == 0,
        model::sum_of(Seq::empty(), model::free_bytes()) == 0,
        model::sum_of(Seq::empty(), model::one_if_live()) == 0,
        model::sum_of(Seq::empty(), model::one_if_free()) == 0,
        model::sum_of(Seq::empty(), model::one_if_active()) == 0,
        model::largest_free(Seq::empty()) == 0,
{
    assert(blocks.push(block).drop_last() =~= blocks);
}

/// The report of a heap in use gives each of these numbers in its place.
#[verifier::rlimit(40)]
pub proof fn law_reports_give_the_statistics(state: HeapState)
    requires
        state.ok(),
    ensures
        ({
            let report = heap::report_of(state.heap, state.memory);
            let blocks = state.heap.blocks;
            &&& report.allocated_bytes == model::sum_of(blocks, model::requested_bytes())
            &&& report.used == report.allocated_bytes
            &&& report.free_bytes == model::sum_of(blocks, model::free_bytes())
            &&& report.remaining == report.free_bytes
            &&& report.active_allocations == model::sum_of(blocks, model::one_if_live())
            &&& report.free_blocks == model::sum_of(blocks, model::one_if_free())
            &&& report.metadata_blocks == report.active_allocations + report.free_blocks
            &&& report.metadata_capacity == 96
            &&& report.allocated_bytes + report.free_bytes + 64 <= report.size
            &&& report.metadata_ok
            &&& report.allocation_canaries_ok == state.all_intact()
            &&& report.sentinel_ok == state.sentinel()
            &&& report.base == state.heap.region.base
            &&& report.size == state.heap.region.size
            &&& report.allocations == state.heap.allocations
            &&& report.frees == state.heap.frees
            &&& report.failed_allocations == state.heap.failed_allocations
            &&& report.failed_frees == state.heap.failed_frees
            &&& report.double_frees == state.heap.double_frees
            &&& report.invalid_frees == state.heap.invalid_frees
            &&& report.coalesces == state.heap.coalesces
            &&& report.high_watermark == state.heap.high_watermark
            &&& report.corruption_checks == state.heap.corruption_checks
            &&& report.corruption_failures == state.heap.corruption_failures
            &&& report.corruption_detections == state.heap.corruption_detections
            &&& report.guard_low == state.heap.region.guard_low
            &&& report.guard_high == state.heap.region.guard_high
        }),
{
    let blocks = state.heap.blocks;
    heap_proofs::lemma_metadata_ok(state.heap);
    heap_proofs::lemma_region_bound(state.heap.region);
    heap_proofs::lemma_sum_le(
        blocks,
        model::requested_bytes(),
        model::free_bytes(),
        model::taken_bytes(),
    );
    model::lemma_sum_nonnegative(blocks, model::requested_bytes());
    model::lemma_sum_nonnegative(blocks, model::free_bytes());
    model::lemma_sum_nonnegative(blocks, model::one_if_live());
    model::lemma_sum_nonnegative(blocks, model::one_if_free());
    lemma_counts_add_up(blocks);
}

proof fn lemma_counts_add_up(blocks: Seq<HeapBlock>)
    ensures
        model::sum_of(blocks, model::one_if_live()) + model::sum_of(blocks, model::one_if_free())
            == model::sum_of(blocks, model::one_if_active()),
        model::sum_of(blocks, model::one_if_active()) <= blocks.len(),
    decreases blocks.len(),
{
    if blocks.len() > 0 {
        lemma_counts_add_up(blocks.drop_last());
    }
}

/// The joins that a free makes are counted: as many as there are fewer blocks afterwards.
pub proof fn law_joins_are_counted(state: HeapState, address: u64)
    requires
        state.ok(),
        state.intact(address),
    ensures
        ({
            let after = state.free(address).heap;
            let fewer = model::sum_of(state.heap.blocks, model::one_if_active()) - model::sum_of(
                after.blocks,
                model::one_if_active(),
            );
            &&& fewer >= 0
            &&& state.heap.coalesces + fewer <= u64::MAX ==> after.coalesces == state.heap.coalesces
                + fewer
            &&& state.heap.coalesces + fewer > u64::MAX ==> after.coalesces == u64::MAX
        }),
{
    laws::lemma_block_at(state, address);
    let heap = state.heap;
    let index = heap.find_address(address)->0;
    let freed = heap.blocks_after_free(index);
    heap_proofs::lemma_release(heap, index, address);
    model::lemma_sum_update(heap.blocks, index, freed[index], model::one_if_active());
    heap_proofs::lemma_coalesced(freed, heap.region.size);
    lemma_spread(heap, index);
    records::law_coalescing(freed, heap.region.size);
}

proof fn lemma_rotated(sum: u8)
    by (bit_vector)
    ensures
        (sum * 2) % 256 + sum / 128 == (sum << 1) | (sum >> 7),
{
}

/// The test pattern counts up from its seed, with each byte rotated left by one bit.
pub proof fn law_patterns_count_and_rotate(seed: u8, size: u64, index: int)
    requires
        0 <= index < size,
    ensures
        ({
            let sum = ((seed + index) % 256) as u8;
            &&& laws::pattern(seed, size).len() == size
            &&& laws::pattern(seed, size)[index] == (sum << 1) | (sum >> 7)
        }),
{
    lemma_rotated(((seed + index) % 256) as u8);
}

} // verus!
