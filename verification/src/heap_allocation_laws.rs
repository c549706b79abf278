//! Which requests the heap serves, where it puts them, and what is left free behind them.
use crate::heap_model as model;
use crate::heap_model::{HeapBlock, HeapModel};
use crate::heap_record_laws as records;
use crate::{bits, bytes, heap_laws, heap_proofs};
use vstd::prelude::*;

verus! {

/// An alignment that may be asked for: a power of two, at most a page.
pub open spec fn may_ask(align: u64) -> bool {
    &&& 1 <= align <= 4096
    &&& exists|k: nat| align as int == #[trigger] vstd::arithmetic::power2::pow2(k)
}

/// `size` bytes at `place` are aligned and lie in `block` with eight bytes before and behind.
/// Places are multiples of eight in any case.
pub open spec fn holds_at(block: HeapBlock, size: u64, align: u64, place: int) -> bool {
    &&& block.active && !block.allocated
    &&& block.offset + 8 <= place
    &&& place + size + 8 <= block.offset + block.size
    &&& place % align as int == 0
    &&& place % 8 == 0
}

/// There is a place for `size` bytes in `block`.
pub open spec fn has_room(block: HeapBlock, size: u64, align: u64) -> bool {
    exists|place: int| #[trigger] holds_at(block, size, align, place)
}

proof fn lemma_alignments(align: u64)
    ensures
        may_ask(align) <==> model::alignment_ok(align),
        may_ask(align) ==> {
            let eff = model::effective(align);
            &&& 8 <= eff <= 4096
            &&& bits::is_pow2(eff)
            &&& forall|place: int|
                #![trigger place % eff]
                place % eff == 0 <==> place % align as int == 0 && place % 8 == 0
        },
{
    bits::lemma_small_pow2();
    if bits::is_pow2(align as int) {
        bits::lemma_is_pow2_pos(align as int);
    }
    if may_ask(align) {
        let eff = model::effective(align);
        bits::lemma_pow2_divides(align as int, eff);
        bits::lemma_pow2_divides(8, eff);
        assert forall|place: int|
            #![trigger place % eff]
            place % eff == 0 implies place % align as int == 0 && place % 8 == 0 by {
            heap_proofs::lemma_mod_divides(place, align as int, eff);
            heap_proofs::lemma_mod_divides(place, 8, eff);
        }
    }
}

/// A free block of a sound heap has room exactly where the search says so, and the place that is
/// taken is the lowest there is.
#[verifier::rlimit(40)]
proof fn lemma_room(block: HeapBlock, size: u64, align: u64, heap_size: u64)
    requires
        may_ask(align),
        size > 0,
        heap_size <= u64::MAX - 4095,
        block.active ==> model::sound(block, heap_size),
    ensures
        model::fitting(size, model::effective(align))(block) <==> has_room(block, size, align),
        has_room(block, size, align) ==> {
            let place = model::payload_start(block, model::effective(align));
            &&& holds_at(block, size, align, place)
            &&& forall|other: int|
                #[trigger] holds_at(block, size, align, other) ==> place <= other
        },
{
    let eff = model::effective(align);
    lemma_alignments(align);
    if model::fitting(size, eff)(block) {
        heap_proofs::lemma_sound(block, heap_size);
        heap_proofs::lemma_fit(block, size, align, heap_size);
        assert(holds_at(block, size, align, model::payload_start(block, eff)));
    }
    assert forall|other: int| #[trigger] holds_at(block, size, align, other) implies {
        &&& model::fitting(size, eff)(block)
        &&& model::payload_start(block, eff) <= other
    } by {
        heap_proofs::lemma_sound(block, heap_size);
        assert(other % eff == 0);
        bits::lemma_ceil_to(block.offset + 8, eff);
        heap_laws::lemma_ceil_order(block.offset + 8, other, eff);
    }
}

/// A request is served exactly where the heap is in use, something is asked for, the alignment
/// may be asked for, and some free block has a place for it. It is served from the first block
/// that has one, at the lowest place there.
pub proof fn law_requests_are_served_first_fit(heap: HeapModel, size: u64, align: u64)
    requires
        heap.inv(),
    ensures
        heap.alloc_result(size, align) is Some <==> {
            &&& heap.initialized
            &&& size > 0
            &&& may_ask(align)
            &&& exists|i: int| 0 <= i < 96 && has_room(#[trigger] heap.blocks[i], size, align)
        },
        heap.alloc_result(size, align) matches Some(address) ==> exists|i: int|
            0 <= i < 96 && holds_at(
                #[trigger] heap.blocks[i],
                size,
                align,
                address - heap.region.base,
            ) && (forall|j: int| 0 <= j < i ==> !has_room(#[trigger] heap.blocks[j], size, align))
                && (forall|place: int| #[trigger]
                holds_at(heap.blocks[i], size, align, place) ==> address - heap.region.base
                    <= place),
{
    lemma_served(heap, size, align);
}

#[verifier::rlimit(40)]
proof fn lemma_served(heap: HeapModel, size: u64, align: u64)
    requires
        heap.inv(),
    ensures
        heap.alloc_result(size, align) is Some <==> {
            &&& heap.initialized
            &&& size > 0
            &&& may_ask(align)
            &&& exists|i: int| 0 <= i < 96 && has_room(#[trigger] heap.blocks[i], size, align)
        },
        heap.alloc_result(size, align) matches Some(address) ==> {
            let i = model::first_fit(heap.blocks, size, align)->0;
            let place = address - heap.region.base;
            &&& 0 <= i < 96
            &&& place == model::payload_start(heap.blocks[i], model::effective(align))
            &&& holds_at(heap.blocks[i], size, align, place)
            &&& forall|j: int| 0 <= j < i ==> !has_room(#[trigger] heap.blocks[j], size, align)
            &&& forall|other: int| #[trigger]
                holds_at(heap.blocks[i], size, align, other) ==> place <= other
        },
{
    let blocks = heap.blocks;
    let wanted = model::fitting(size, model::effective(align));
    lemma_alignments(align);
    if heap.initialized && size > 0 && may_ask(align) {
        heap_proofs::lemma_region_bound(heap.region);
        heap_proofs::lemma_metadata_ok(heap);
        heap_proofs::lemma_index_where(blocks, wanted, 0);
        assert forall|i: int| 0 <= i < 96 implies wanted(#[trigger] blocks[i]) == has_room(
            blocks[i],
            size,
            align,
        ) by {
            lemma_room(blocks[i], size, align, heap.region.size);
        }
        if heap.alloc_result(size, align) is Some {
            let i = model::first_fit(blocks, size, align)->0;
            lemma_room(blocks[i], size, align, heap.region.size);
        }
    }
}

/// An allocation takes its bytes out of one free block: the canary before the payload, the
/// payload, the canary behind it, and what alignment skips before them. Free bytes elsewhere stay
/// free, and no byte becomes free. What the block has behind the second canary stays free where
/// it is thirty-two bytes or more and a record is to be had; less than that goes with the
/// allocation.
#[verifier::rlimit(40)]
pub proof fn law_allocations_leave_the_rest_free(heap: HeapModel, size: u64, align: u64)
    requires
        heap.inv(),
        heap.alloc_result(size, align) is Some,
    ensures
        ({
            let after = heap.alloc_model(size, align).blocks;
            let place = heap.alloc_result(size, align)->0 - heap.region.base;
            let end = place + size + 8;
            exists|i: int|
                0 <= i < 96 && holds_at(#[trigger] heap.blocks[i], size, align, place) && ({
                    let block = heap.blocks[i];
                    let spare = exists|k: int| 0 <= k < 96 && !(#[trigger] heap.blocks[k]).active;
                    &&& forall|offset: int|
                        records::free_byte(after, offset) <==> records::free_byte(
                            heap.blocks,
                            offset,
                        ) && (!records::covers(block, offset) || (offset >= end && spare
                            && block.offset + block.size - end >= 32))
                })
        }),
{
    lemma_served(heap, size, align);
    let blocks = heap.blocks;
    let i = model::first_fit(blocks, size, align)->0;
    let block = blocks[i];
    let address = heap.alloc_result(size, align)->0;
    let place = address - heap.region.base;
    let end = place + size + 8;
    let after = heap.alloc_model(size, align).blocks;
    heap_proofs::lemma_region_bound(heap.region);
    heap_proofs::lemma_sound(block, heap.region.size);
    heap_proofs::lemma_fit(block, size, align, heap.region.size);
    heap_proofs::lemma_index_where(blocks, model::unused(), 0);
    let slot = model::index_where(blocks, model::unused(), 0);
    let spare = exists|k: int| 0 <= k < 96 && !(#[trigger] blocks[k]).active;
    assert(spare == slot is Some) by {
        if slot is Some {
            assert(!blocks[slot->0].active);
        } else {
            assert forall|k: int| 0 <= k < 96 implies (#[trigger] blocks[k]).active by {
                assert(!model::unused()(blocks[k]));
            }
        }
    }
    let splits = spare && block.offset + block.size - end >= 32;
    assert forall|offset: int|
        records::free_byte(after, offset) <==> records::free_byte(blocks, offset) && (
        !records::covers(block, offset) || (offset >= end && splits)) by {
        if records::free_byte(after, offset) {
            let k = choose|k: int|
                0 <= k < after.len() && model::is_free(#[trigger] after[k]) && records::covers(
                    after[k],
                    offset,
                );
            if splits && k == slot->0 {
                assert(model::is_free(blocks[i]) && records::covers(blocks[i], offset));
            } else {
                assert(after[k] == blocks[k]);
                assert(k != i);
                heap_proofs::lemma_apart_both(blocks, k, i, heap.region.size);
                assert(model::is_free(blocks[k]) && records::covers(blocks[k], offset));
            }
        }
        if records::free_byte(blocks, offset) && (!records::covers(block, offset) || (offset >= end
            && splits)) {
            let k = choose|k: int|
                0 <= k < blocks.len() && model::is_free(#[trigger] blocks[k]) && records::covers(
                    blocks[k],
                    offset,
                );
            if records::covers(block, offset) {
                assert(model::is_free(after[slot->0]) && records::covers(after[slot->0], offset));
            } else {
                assert(k != i);
                assert(after[k] == blocks[k]);
                assert(model::is_free(after[k]) && records::covers(after[k], offset));
            }
        }
    }
    assert(holds_at(blocks[i], size, align, place));
}

/// A second request for which there is a place among the bytes that the first one leaves free
/// behind it is served.
#[verifier::rlimit(40)]
pub proof fn law_what_is_left_can_be_given_out(
    heap: HeapModel,
    size: u64,
    align: u64,
    next_size: u64,
    next_align: u64,
    index: int,
    place: int,
)
    requires
        heap.inv(),
        heap.alloc_result(size, align) is Some,
        0 <= index < 96,
        holds_at(
            heap.blocks[index],
            size,
            align,
            heap.alloc_result(size, align)->0 - heap.region.base,
        ),
        exists|k: int| 0 <= k < 96 && !(#[trigger] heap.blocks[k]).active,
        next_size > 0,
        may_ask(next_align),
        place % next_align as int == 0,
        place % 8 == 0,
        heap.alloc_result(size, align)->0 - heap.region.base + size + 8 + 8 <= place,
        heap.alloc_result(size, align)->0 - heap.region.base + size + 8 + 32
            <= heap.blocks[index].offset + heap.blocks[index].size,
        place + next_size + 8 <= heap.blocks[index].offset + heap.blocks[index].size,
    ensures
        heap.alloc_model(size, align).alloc_result(next_size, next_align) is Some,
{
    lemma_served(heap, size, align);
    let blocks = heap.blocks;
    let i = model::first_fit(blocks, size, align)->0;
    let here = heap.alloc_result(size, align)->0 - heap.region.base;
    let end = here + size + 8;
    let next = heap.alloc_model(size, align);
    if i != index {
        heap_proofs::lemma_apart_both(blocks, i, index, heap.region.size);
    }
    heap_proofs::lemma_region_bound(heap.region);
    heap_proofs::lemma_sound(blocks[i], heap.region.size);
    heap_proofs::lemma_fit(blocks[i], size, align, heap.region.size);
    heap_proofs::lemma_index_where(blocks, model::unused(), 0);
    let slot = model::index_where(blocks, model::unused(), 0);
    let k = choose|k: int| 0 <= k < 96 && !(#[trigger] blocks[k]).active;
    assert(model::unused()(blocks[k]));
    heap_proofs::lemma_alloc_inv(heap, size, align);
    assert(next.blocks[slot->0] == model::free_block(end, blocks[i].offset + blocks[i].size - end));
    assert(holds_at(next.blocks[slot->0], next_size, next_align, place));
    lemma_served(next, next_size, next_align);
}

/// An allocation writes its two canaries, each as eight bytes with the lowest first, right before
/// the payload and right behind it, and no other byte of the region.
#[verifier::rlimit(40)]
pub proof fn law_allocations_write_two_canaries(
    heap: HeapModel,
    memory: Seq<u8>,
    size: u64,
    align: u64,
)
    requires
        heap.inv(),
        heap.backed_by(memory),
        heap.alloc_result(size, align) is Some,
    ensures
        ({
            let after = heap.alloc_memory(memory, size, align);
            let place = heap.alloc_result(size, align)->0 - heap.region.base;
            &&& after.len() == memory.len()
            &&& forall|k: int|
                0 <= k < memory.len() && !(place - 8 <= k < place) && !(place + size <= k < place
                    + size + 8) ==> after[k] == memory[k]
            &&& bytes::le_at(after, place - 8, 8) == 0x4845_4150_4845_4144
            &&& bytes::le_at(after, place + size, 8) == 0x4845_4150_5441_494c
        }),
{
    lemma_served(heap, size, align);
    heap_proofs::lemma_alloc_blocks(heap, size, align);
    let i = model::first_fit(heap.blocks, size, align)->0;
    let block = heap.alloc_model(size, align).blocks[i];
    heap_laws::lemma_with_canaries(block, memory, heap.region.size);
    bytes::lemma_le_bytes_len(model::ALLOC_CANARY_HEAD as nat, 8);
    bytes::lemma_le_bytes_len(model::ALLOC_CANARY_TAIL as nat, 8);
    heap_proofs::lemma_sound(block, heap.region.size);
}

/// A request that is served counts as an allocation, one that is refused as a failed one, and no
/// other count moves. The high watermark becomes the larger of what it was and the bytes that are
/// now asked for in all.
pub proof fn law_requests_are_counted(heap: HeapModel, size: u64, align: u64)
    requires
        heap.inv(),
    ensures
        ({
            let after = heap.alloc_model(size, align);
            let served = heap.alloc_result(size, align) is Some;
            let asked = model::sum_of(after.blocks, model::requested_bytes());
            &&& after.allocations == if served && heap.allocations < u64::MAX {
                heap.allocations + 1
            } else {
                heap.allocations as int
            }
            &&& after.failed_allocations == if !served && heap.failed_allocations < u64::MAX {
                heap.failed_allocations + 1
            } else {
                heap.failed_allocations as int
            }
            &&& after.high_watermark >= heap.high_watermark
            &&& served ==> after.high_watermark >= asked && (after.high_watermark
                == heap.high_watermark || after.high_watermark == asked)
            &&& !served ==> after.high_watermark == heap.high_watermark && after.blocks
                == heap.blocks
            &&& after.region == heap.region
            &&& after.initialized == heap.initialized
            &&& after.mapped_pages == heap.mapped_pages
            &&& after.frees == heap.frees
            &&& after.failed_frees == heap.failed_frees
            &&& after.double_frees == heap.double_frees
            &&& after.invalid_frees == heap.invalid_frees
            &&& after.coalesces == heap.coalesces
            &&& after.corruption_checks == heap.corruption_checks
            &&& after.corruption_failures == heap.corruption_failures
            &&& after.corruption_detections == heap.corruption_detections
            &&& after.recent_frees == heap.recent_frees
            &&& after.recent_free_index == heap.recent_free_index
        }),
{
    if heap.alloc_result(size, align) is Some {
        let after = heap.alloc_model(size, align);
        heap_proofs::lemma_alloc_inv(heap, size, align);
        heap_proofs::lemma_sum_le(
            after.blocks,
            model::requested_bytes(),
            model::free_bytes(),
            model::taken_bytes(),
        );
        model::lemma_sum_nonnegative(after.blocks, model::free_bytes());
        model::lemma_sum_nonnegative(after.blocks, model::requested_bytes());
    }
}

} // verus!
