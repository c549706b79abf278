//! What the heap's verdict on its records means, and what joining free blocks does to them.
use crate::heap_model as model;
use crate::heap_model::{HeapBlock, HeapModel};
use crate::{bits, heap_proofs};
use vstd::prelude::*;
use vstd::set_lib;

verus! {

/// The byte at `offset` belongs to `block`.
pub open spec fn covers(block: HeapBlock, offset: int) -> bool {
    block.offset <= offset < block.offset + block.size
}

/// The byte at `offset` belongs to an active block.
pub open spec fn taken_byte(blocks: Seq<HeapBlock>, offset: int) -> bool {
    exists|i: int|
        0 <= i < blocks.len() && (#[trigger] blocks[i]).active && covers(blocks[i], offset)
}

/// The byte at `offset` belongs to a free block.
pub open spec fn free_byte(blocks: Seq<HeapBlock>, offset: int) -> bool {
    exists|i: int|
        0 <= i < blocks.len() && model::is_free(#[trigger] blocks[i]) && covers(blocks[i], offset)
}

/// The active blocks have bytes, lie below `heap_size`, and are apart.
pub open spec fn spread(blocks: Seq<HeapBlock>, heap_size: u64) -> bool {
    &&& forall|i: int|
        0 <= i < blocks.len() && (#[trigger] blocks[i]).active ==> 0 < blocks[i].size
            && blocks[i].offset + blocks[i].size <= heap_size
    &&& forall|i: int, j: int|
        0 <= i < j < blocks.len() && (#[trigger] blocks[i]).active && (#[trigger] blocks[j]).active
            ==> model::apart(blocks[i], blocks[j])
}

/// The record is genuine, and its stretch lies in the region behind the sentinel. Where it is in
/// use its payload is aligned and has room for a canary on each side.
pub open spec fn in_order(block: HeapBlock, heap_size: u64) -> bool {
    &&& block.magic == model::BLOCK_MAGIC
    &&& 0 < block.size
    &&& 64 <= block.offset
    &&& block.offset + block.size <= heap_size
    &&& block.allocated ==> {
        &&& block.offset + 8 <= block.payload_offset
        &&& block.payload_offset + block.requested_size + 8 <= block.offset + block.size
        &&& 8 <= block.alignment
        &&& bits::is_pow2(block.alignment as int)
        &&& block.payload_offset % block.alignment == 0
    }
}

/// All active records are in order, and no two share a byte.
pub open spec fn all_in_order(blocks: Seq<HeapBlock>, heap_size: u64) -> bool {
    &&& forall|i: int|
        0 <= i < blocks.len() && (#[trigger] blocks[i]).active ==> in_order(blocks[i], heap_size)
    &&& forall|i: int, j: int|
        0 <= i < j < blocks.len() && (#[trigger] blocks[i]).active && (#[trigger] blocks[j]).active
            ==> model::apart(blocks[i], blocks[j])
}

/// The bytes of blocks that are apart are as many as their sizes add up to.
proof fn lemma_taken_bytes(blocks: Seq<HeapBlock>, heap_size: u64)
    requires
        spread(blocks, heap_size),
    ensures
        Set::new(|offset: int| taken_byte(blocks, offset)).finite(),
        Set::new(|offset: int| taken_byte(blocks, offset)).len() == model::sum_of(
            blocks,
            model::taken_bytes(),
        ),
    decreases blocks.len(),
{
    let all = Set::new(|offset: int| taken_byte(blocks, offset));
    if blocks.len() == 0 {
        assert(all =~= Set::empty());
    } else {
        let less = blocks.drop_last();
        let last = blocks.last();
        let end = blocks.len() - 1;
        let before = Set::new(|offset: int| taken_byte(less, offset));
        assert forall|i: int| 0 <= i < less.len() && (#[trigger] less[i]).active implies 0
            < less[i].size && less[i].offset + less[i].size <= heap_size by {
            assert(blocks[i].active);
        }
        assert forall|i: int, j: int|
            0 <= i < j < less.len() && (#[trigger] less[i]).active && (
            #[trigger] less[j]).active implies model::apart(less[i], less[j]) by {
            assert(model::apart(blocks[i], blocks[j]));
        }
        lemma_taken_bytes(less, heap_size);
        assert forall|offset: int| taken_byte(less, offset) implies taken_byte(blocks, offset) by {
            let i = choose|i: int|
                0 <= i < less.len() && (#[trigger] less[i]).active && covers(less[i], offset);
            assert(blocks[i].active && covers(blocks[i], offset));
        }
        assert forall|offset: int|
            taken_byte(blocks, offset) && !(last.active && covers(last, offset)) implies taken_byte(
            less,
            offset,
        ) by {
            let i = choose|i: int|
                0 <= i < blocks.len() && (#[trigger] blocks[i]).active && covers(
                    blocks[i],
                    offset,
                );
            assert(less[i].active && covers(less[i], offset));
        }
        if last.active {
            let own = set_lib::set_int_range(last.offset as int, last.offset + last.size);
            set_lib::lemma_int_range(last.offset as int, last.offset + last.size);
            assert(all =~= before + own) by {
                assert forall|offset: int| own.contains(offset) implies all.contains(offset) by {
                    assert(blocks[end].active && covers(blocks[end], offset));
                }
            }
            assert(before.disjoint(own)) by {
                assert forall|offset: int| before.contains(offset) implies !own.contains(
                    offset,
                ) by {
                    let i = choose|i: int|
                        0 <= i < less.len() && (#[trigger] less[i]).active && covers(
                            less[i],
                            offset,
                        );
                    assert(model::apart(blocks[i], blocks[end]));
                }
            }
            set_lib::lemma_set_disjoint_lens(before, own);
        } else {
            assert(all =~= before);
        }
    }
}

/// Blocks that lie behind the sentinel and are apart do not add up to more than there is, and
/// where they add up to all there is they leave nothing out.
proof fn lemma_taken_bound(blocks: Seq<HeapBlock>, heap_size: u64)
    requires
        64 <= heap_size,
        all_in_order(blocks, heap_size),
    ensures
        model::sum_of(blocks, model::taken_bytes()) <= heap_size - 64,
        model::sum_of(blocks, model::taken_bytes()) == heap_size - 64 ==> forall|offset: int|
            64 <= offset < heap_size ==> taken_byte(blocks, offset),
{
    let all = Set::new(|offset: int| taken_byte(blocks, offset));
    let region = set_lib::set_int_range(64, heap_size as int);
    assert(spread(blocks, heap_size));
    lemma_taken_bytes(blocks, heap_size);
    set_lib::lemma_int_range(64, heap_size as int);
    assert(all.subset_of(region)) by {
        assert forall|offset: int| all.contains(offset) implies region.contains(offset) by {
            let i = choose|i: int|
                0 <= i < blocks.len() && (#[trigger] blocks[i]).active && covers(
                    blocks[i],
                    offset,
                );
            assert(in_order(blocks[i], heap_size));
        }
    }
    set_lib::lemma_len_subset(all, region);
    if model::sum_of(blocks, model::taken_bytes()) == heap_size - 64 {
        set_lib::lemma_subset_equality(all, region);
        assert forall|offset: int| 64 <= offset < heap_size implies taken_byte(
            blocks,
            offset,
        ) by {
            assert(region.contains(offset));
            assert(all.contains(offset));
        }
    }
}

/// The heap calls its records in order exactly where they are: every active one is genuine and
/// in its place, no two share a byte, and once the heap is in use they take up all of the region
/// behind the sentinel, each byte of it. Of records that overlap, carry a wrong mark, leave the
/// region or have a bad shape the heap says that they are not.
pub proof fn law_verdict_on_records(heap: HeapModel)
    requires
        heap.region.valid(),
    ensures
        model::records_ok(heap.blocks, heap.region.size, heap.initialized) <==> {
            &&& all_in_order(heap.blocks, heap.region.size)
            &&& heap.initialized ==> model::sum_of(heap.blocks, model::taken_bytes())
                == heap.region.size - 64
        },
        model::records_ok(heap.blocks, heap.region.size, heap.initialized) && heap.initialized
            ==> forall|offset: int|
            64 <= offset < heap.region.size ==> taken_byte(heap.blocks, offset),
{
    let blocks = heap.blocks;
    let size = heap.region.size;
    heap_proofs::lemma_region_bound(heap.region);
    model::lemma_sum_nonnegative(blocks, model::requested_bytes());
    model::lemma_sum_nonnegative(blocks, model::free_bytes());
    model::lemma_sum_nonnegative(blocks, model::taken_bytes());
    if model::records_ok(blocks, size, heap.initialized) {
        assert forall|i: int| 0 <= i < blocks.len() && (#[trigger] blocks[i]).active implies in_order(
            blocks[i],
            size,
        ) by {
            assert(model::in_heap(blocks[i], size));
        }
        assert forall|i: int, j: int|
            0 <= i < j < blocks.len() && (#[trigger] blocks[i]).active && (
            #[trigger] blocks[j]).active implies model::apart(blocks[i], blocks[j]) by {
            assert(!model::overlap(blocks[i], blocks[j]));
            assert(model::in_heap(blocks[i], size) && model::in_heap(blocks[j], size));
        }
        lemma_taken_bound(blocks, size);
    }
    if all_in_order(blocks, size) && (heap.initialized ==> model::sum_of(
        blocks,
        model::taken_bytes(),
    ) == size - 64) {
        lemma_taken_bound(blocks, size);
        assert forall|i: int, j: int|
            0 <= i < j < blocks.len() && (#[trigger] blocks[i]).active && (
            #[trigger] blocks[j]).active implies !model::overlap(blocks[i], blocks[j]) by {
            assert(model::apart(blocks[i], blocks[j]));
            assert(in_order(blocks[i], size) && in_order(blocks[j], size));
        }
        assert forall|i: int| 0 <= i < blocks.len() implies model::requested_bytes()(
            #[trigger] blocks[i],
        ) + model::free_bytes()(blocks[i]) <= model::taken_bytes()(blocks[i]) by {
            if blocks[i].active {
                assert(in_order(blocks[i], size));
            }
        }
        heap_proofs::lemma_sum_le(
            blocks,
            model::requested_bytes(),
            model::free_bytes(),
            model::taken_bytes(),
        );
    }
}

/// A heap whose records are not in order gives nothing out: it counts the attempt and leaves
/// everything else as it was.
pub proof fn law_bad_records_stop_allocation(
    heap: HeapModel,
    memory: Seq<u8>,
    size: u64,
    align: u64,
)
    requires
        !heap.metadata_ok(),
    ensures
        heap.alloc_result(size, align) is None,
        heap.alloc_model(size, align) == (HeapModel {
            failed_allocations: heap.failed_allocations.saturating_add(1),
            ..heap
        }),
        heap.alloc_memory(memory, size, align) == memory,
{
}

/// How many blocks were active before and are not after.
pub open spec fn gone(before: Seq<HeapBlock>, after: Seq<HeapBlock>) -> nat
    decreases before.len(),
{
    if before.len() == 0 || before.len() != after.len() {
        0
    } else {
        gone(before.drop_last(), after.drop_last()) + if before.last().active
            && !after.last().active {
            1nat
        } else {
            0nat
        }
    }
}

proof fn lemma_gone(before: Seq<HeapBlock>, after: Seq<HeapBlock>)
    requires
        before.len() == after.len(),
        forall|i: int|
            0 <= i < before.len() && (#[trigger] after[i]).active ==> before[i].active,
    ensures
        gone(before, after) == model::sum_of(before, model::one_if_active()) - model::sum_of(
            after,
            model::one_if_active(),
        ),
    decreases before.len(),
{
    if before.len() > 0 {
        let fewer = before.drop_last();
        let left = after.drop_last();
        assert forall|i: int| 0 <= i < fewer.len() && (
        #[trigger] left[i]).active implies fewer[i].active by {
            assert(after[i].active ==> before[i].active);
        }
        lemma_gone(fewer, left);
        assert(after[before.len() - 1].active ==> before[before.len() - 1].active);
    }
}

proof fn lemma_apart(blocks: Seq<HeapBlock>, heap_size: u64, i: int, j: int)
    requires
        spread(blocks, heap_size),
        0 <= i < blocks.len(),
        0 <= j < blocks.len(),
        i != j,
        blocks[i].active,
        blocks[j].active,
    ensures
        model::apart(blocks[i], blocks[j]),
{
    if i < j {
        assert(model::apart(blocks[i], blocks[j]));
    } else {
        assert(model::apart(blocks[j], blocks[i]));
    }
}

/// Joining one pair keeps the blocks apart and the free bytes the same.
proof fn lemma_merge_spread(blocks: Seq<HeapBlock>, left: int, right: int, heap_size: u64)
    requires
        spread(blocks, heap_size),
        0 <= left < blocks.len(),
        0 <= right < blocks.len(),
        model::touching(blocks, left, right),
    ensures
        spread(model::merge(blocks, left, right), heap_size),
        forall|offset: int|
            free_byte(model::merge(blocks, left, right), offset) == free_byte(blocks, offset),
{
    let after = model::merge(blocks, left, right);
    let first = blocks[left];
    let second = blocks[right];
    let whole = model::joined(first, second);
    lemma_apart(blocks, heap_size, left, right);
    assert(0 < first.size && first.offset + first.size <= heap_size);
    assert(0 < second.size && second.offset + second.size <= heap_size);
    assert(after[left] == whole && !after[right].active);
    assert forall|offset: int| #[trigger] covers(whole, offset) == (covers(first, offset) || covers(
        second,
        offset,
    )) by {}
    assert forall|i: int| 0 <= i < after.len() && (#[trigger] after[i]).active implies 0
        < after[i].size && after[i].offset + after[i].size <= heap_size by {
        if i != left {
            assert(after[i] == blocks[i]);
        }
    }
    assert forall|i: int, j: int|
        0 <= i < j < after.len() && (#[trigger] after[i]).active && (
        #[trigger] after[j]).active implies model::apart(after[i], after[j]) by {
        if i == left || j == left {
            let k = if i == left {
                j
            } else {
                i
            };
            assert(after[k] == blocks[k]);
            assert(0 < blocks[k].size);
            lemma_apart(blocks, heap_size, left, k);
            lemma_apart(blocks, heap_size, right, k);
        } else {
            assert(model::apart(blocks[i], blocks[j]));
        }
    }
    assert forall|offset: int| free_byte(after, offset) == free_byte(blocks, offset) by {
        if free_byte(after, offset) {
            let i = choose|i: int|
                0 <= i < after.len() && model::is_free(#[trigger] after[i]) && covers(
                    after[i],
                    offset,
                );
            if i == left {
                assert(covers(whole, offset));
                if covers(first, offset) {
                    assert(model::is_free(blocks[left]) && covers(blocks[left], offset));
                } else {
                    assert(model::is_free(blocks[right]) && covers(blocks[right], offset));
                }
            } else {
                assert(after[i] == blocks[i]);
            }
        }
        if free_byte(blocks, offset) {
            let i = choose|i: int|
                0 <= i < blocks.len() && model::is_free(#[trigger] blocks[i]) && covers(
                    blocks[i],
                    offset,
                );
            if i == left || i == right {
                assert(covers(whole, offset));
                assert(model::is_free(after[left]) && covers(after[left], offset));
            } else {
                assert(after[i] == blocks[i]);
            }
        }
    }
}

/// Joining free blocks leaves no two that touch, changes no block in use, and neither gains nor
/// loses a free byte. No record becomes active, so the joins, which the heap counts, are as many
/// as the records that became unused. Joining once more changes nothing. This is for active
/// blocks that have bytes, lie below `heap_size` and are apart.
pub proof fn law_coalescing(blocks: Seq<HeapBlock>, heap_size: u64)
    requires
        spread(blocks, heap_size),
    ensures
        model::coalesced(blocks).len() == blocks.len(),
        spread(model::coalesced(blocks), heap_size),
        model::settled(model::coalesced(blocks)),
        heap_proofs::same_live(blocks, model::coalesced(blocks)),
        forall|offset: int|
            free_byte(model::coalesced(blocks), offset) == free_byte(blocks, offset),
        forall|i: int|
            0 <= i < blocks.len() && (#[trigger] model::coalesced(blocks)[i]).active
                ==> blocks[i].active,
        gone(blocks, model::coalesced(blocks)) == model::sum_of(blocks, model::one_if_active())
            - model::sum_of(model::coalesced(blocks), model::one_if_active()),
        model::coalesced(model::coalesced(blocks)) == model::coalesced(blocks),
    decreases model::sum_of(blocks, model::one_if_active()),
{
    let after = model::coalesced(blocks);
    model::lemma_pair_from(blocks, 0);
    match model::pair_from(blocks, 0) {
        None => {},
        Some((left, right)) => {
            let next = model::merge(blocks, left, right);
            model::lemma_merge_counts(blocks, left, right);
            lemma_merge_spread(blocks, left, right, heap_size);
            law_coalescing(next, heap_size);
            assert forall|i: int| 0 <= i < blocks.len() implies model::is_live(
                #[trigger] blocks[i],
            ) == model::is_live(after[i]) && (model::is_live(blocks[i]) ==> after[i]
                == blocks[i]) by {
                assert(model::is_live(next[i]) == model::is_live(after[i]));
            }
            assert forall|offset: int| free_byte(after, offset) == free_byte(blocks, offset) by {
                assert(free_byte(next, offset) == free_byte(blocks, offset));
            }
            assert forall|i: int| 0 <= i < blocks.len() && (
            #[trigger] after[i]).active implies blocks[i].active by {
                assert(next[i].active);
            }
        },
    }
    lemma_gone(blocks, after);
}

} // verus!
