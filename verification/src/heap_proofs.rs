//! Why the heap's operations keep its records in order.
use crate::bits;
use crate::heap_model as model;
use crate::heap_model::{HeapBlock, HeapModel};
use vstd::prelude::*;

verus! {

/// What `index_where` finds is wanted, and where it finds nothing nothing is.
pub proof fn lemma_index_where(
    blocks: Seq<HeapBlock>,
    wanted: spec_fn(HeapBlock) -> bool,
    from: int,
)
    requires
        0 <= from,
    ensures
        match model::index_where(blocks, wanted, from) {
            Some(index) => from <= index < blocks.len() && wanted(blocks[index]) && forall|i: int|
                from <= i < index ==> !wanted(#[trigger] blocks[i]),
            None => forall|i: int| from <= i < blocks.len() ==> !wanted(#[trigger] blocks[i]),
        },
    decreases blocks.len() - from,
{
    if from < blocks.len() && !wanted(blocks[from]) {
        lemma_index_where(blocks, wanted, from + 1);
    }
}

/// A search does not notice a change of blocks that it does not want.
pub proof fn lemma_index_where_same(
    blocks: Seq<HeapBlock>,
    others: Seq<HeapBlock>,
    wanted: spec_fn(HeapBlock) -> bool,
    from: int,
)
    requires
        0 <= from,
        blocks.len() == others.len(),
        forall|i: int|
            0 <= i < blocks.len() ==> wanted(#[trigger] blocks[i]) == wanted(others[i]),
    ensures
        model::index_where(blocks, wanted, from) == model::index_where(others, wanted, from),
    decreases blocks.len() - from,
{
    if from < blocks.len() {
        assert(wanted(blocks[from]) == wanted(others[from]));
        lemma_index_where_same(blocks, others, wanted, from + 1);
    }
}

/// The largest heap that a valid region can have leaves a page of address space.
pub proof fn lemma_region_bound(region: model::HeapRegion)
    requires
        region.valid(),
    ensures
        4096 <= region.size <= u64::MAX - 4095,
{
}

/// Where an allocation fits, nothing saturates, and the payload is where it should be.
pub proof fn lemma_fit(block: HeapBlock, size: u64, align: u64, heap_size: u64)
    requires
        block.active,
        model::in_heap(block, heap_size),
        heap_size <= u64::MAX - 4095,
        size > 0,
        model::alignment_ok(align),
        model::fitting(size, model::effective(align))(block),
    ensures
        8 <= model::effective(align) <= 4096,
        bits::is_pow2(model::effective(align)),
        block.offset + 8 <= model::payload_start(block, model::effective(align)),
        model::payload_start(block, model::effective(align)) % model::effective(align) == 0,
        model::used_end(block, size, model::effective(align)) == model::payload_start(
            block,
            model::effective(align),
        ) + size + 8,
        model::end_of(block) == block.offset + block.size,
        model::used_end(block, size, model::effective(align)) <= block.offset + block.size,
{
    let eff = model::effective(align);
    bits::lemma_small_pow2();
    bits::lemma_is_pow2_pos(align as int);
    bits::lemma_floor_to(bits::sat(block.offset + 8 + eff - 1), eff);
}

/// Pointwise smaller weights give a smaller sum.
pub proof fn lemma_sum_le(
    blocks: Seq<HeapBlock>,
    first: spec_fn(HeapBlock) -> int,
    second: spec_fn(HeapBlock) -> int,
    both: spec_fn(HeapBlock) -> int,
)
    requires
        forall|i: int|
            0 <= i < blocks.len() ==> first(#[trigger] blocks[i]) + second(blocks[i]) <= both(
                blocks[i],
            ),
    ensures
        model::sum_of(blocks, first) + model::sum_of(blocks, second) <= model::sum_of(blocks, both),
    decreases blocks.len(),
{
    if blocks.len() > 0 {
        let less = blocks.drop_last();
        assert forall|i: int| 0 <= i < less.len() implies first(#[trigger] less[i]) + second(
            less[i],
        ) <= both(less[i]) by {
            assert(first(blocks[i]) + second(blocks[i]) <= both(blocks[i]));
        }
        lemma_sum_le(less, first, second, both);
        assert(first(blocks[blocks.len() - 1]) + second(blocks[blocks.len() - 1]) <= both(
            blocks[blocks.len() - 1],
        ));
    }
}

/// Without active blocks every sum of weights that ask for one is zero.
pub proof fn lemma_sum_inactive(blocks: Seq<HeapBlock>, weight: spec_fn(HeapBlock) -> int)
    requires
        forall|i: int| 0 <= i < blocks.len() ==> weight(#[trigger] blocks[i]) == 0,
    ensures
        model::sum_of(blocks, weight) == 0,
    decreases blocks.len(),
{
    if blocks.len() > 0 {
        let less = blocks.drop_last();
        assert forall|i: int| 0 <= i < less.len() implies weight(#[trigger] less[i]) == 0 by {
            assert(weight(blocks[i]) == 0);
        }
        lemma_sum_inactive(less, weight);
        assert(weight(blocks[blocks.len() - 1]) == 0);
    }
}

/// A sound block passes the checks that are made at run time.
pub proof fn lemma_sound(block: HeapBlock, heap_size: u64)
    requires
        model::sound(block, heap_size),
    ensures
        model::in_heap(block, heap_size),
        block.allocated ==> model::shape_ok(block),
        model::end_of(block) == block.offset + block.size,
        block.allocated ==> model::payload_end_of(block) == block.payload_offset
            + block.requested_size,
{
}

/// A heap that keeps its invariant passes its own checks.
pub proof fn lemma_metadata_ok(heap: HeapModel)
    requires
        heap.inv(),
    ensures
        heap.metadata_ok(),
        model::sum_of(heap.blocks, model::requested_bytes()) + model::sum_of(
            heap.blocks,
            model::free_bytes(),
        ) <= heap.region.size,
{
    let blocks = heap.blocks;
    let size = heap.region.size;
    if heap.initialized {
        assert forall|i: int| 0 <= i < blocks.len() && (#[trigger] blocks[i]).active implies {
            model::in_heap(blocks[i], size) && (blocks[i].allocated ==> model::shape_ok(blocks[i]))
        } by {
            lemma_sound(blocks[i], size);
        }
        assert forall|i: int, j: int|
            0 <= i < j < blocks.len() && (#[trigger] blocks[i]).active && (
            #[trigger] blocks[j]).active implies !model::overlap(blocks[i], blocks[j]) by {
            lemma_sound(blocks[i], size);
            lemma_sound(blocks[j], size);
            assert(model::apart(blocks[i], blocks[j]));
        }
        lemma_sum_le(
            blocks,
            model::requested_bytes(),
            model::free_bytes(),
            model::taken_bytes(),
        );
    } else {
        lemma_sum_inactive(blocks, model::requested_bytes());
        lemma_sum_inactive(blocks, model::free_bytes());
    }
    model::lemma_sum_nonnegative(blocks, model::requested_bytes());
    model::lemma_sum_nonnegative(blocks, model::free_bytes());
}

/// Joining two touching blocks keeps the blocks sound and apart, touches no block in use, and
/// covers the same bytes.
pub proof fn lemma_merge(blocks: Seq<HeapBlock>, left: int, right: int, heap_size: u64)
    requires
        model::blocks_apart(blocks, heap_size),
        0 <= left < blocks.len(),
        0 <= right < blocks.len(),
        model::touching(blocks, left, right),
    ensures
        model::blocks_apart(model::merge(blocks, left, right), heap_size),
        model::sum_of(model::merge(blocks, left, right), model::taken_bytes()) == model::sum_of(
            blocks,
            model::taken_bytes(),
        ),
        model::sum_of(model::merge(blocks, left, right), model::free_bytes()) == model::sum_of(
            blocks,
            model::free_bytes(),
        ),
        model::merge(blocks, left, right).len() == blocks.len(),
{
    let after = model::merge(blocks, left, right);
    lemma_sound(blocks[left], heap_size);
    lemma_sound(blocks[right], heap_size);
    assert(model::apart(blocks[left], blocks[right])) by {
        if left < right {
            assert(model::apart(blocks[left], blocks[right]));
        } else {
            assert(model::apart(blocks[right], blocks[left]));
        }
    }
    model::lemma_merge_counts(blocks, left, right);
    let first = model::joined(blocks[left], blocks[right]);
    model::lemma_sum_update(blocks, left, first, model::free_bytes());
    model::lemma_sum_update(
        blocks.update(left, first),
        right,
        model::no_block(),
        model::free_bytes(),
    );
    assert(model::sound(first, heap_size));
    assert forall|i: int| 0 <= i < after.len() && (#[trigger] after[i]).active implies model::sound(
        after[i],
        heap_size,
    ) by {
        if i != left {
            assert(after[i] == blocks[i]);
        }
    }
    assert forall|i: int, j: int|
        0 <= i < j < after.len() && (#[trigger] after[i]).active && (
        #[trigger] after[j]).active implies model::apart(after[i], after[j]) by {
        let k = if i == left {
            j
        } else {
            i
        };
        if i == left || j == left {
            assert(after[k] == blocks[k]);
            lemma_apart_both(blocks, left, k, heap_size);
            lemma_apart_both(blocks, right, k, heap_size);
        } else {
            assert(model::apart(blocks[i], blocks[j]));
        }
    }
}

pub proof fn lemma_apart_both(blocks: Seq<HeapBlock>, i: int, j: int, heap_size: u64)
    requires
        model::blocks_apart(blocks, heap_size),
        0 <= i < blocks.len(),
        0 <= j < blocks.len(),
        i != j,
        blocks[i].active,
        blocks[j].active,
    ensures
        model::apart(blocks[i], blocks[j]),
        model::apart(blocks[j], blocks[i]),
{
    if i < j {
        assert(model::apart(blocks[i], blocks[j]));
    } else {
        assert(model::apart(blocks[j], blocks[i]));
    }
}

/// The two lists hold the same blocks in use, at the same places.
pub open spec fn same_live(blocks: Seq<HeapBlock>, others: Seq<HeapBlock>) -> bool {
    &&& blocks.len() == others.len()
    &&& forall|i: int|
        0 <= i < blocks.len() ==> model::is_live(#[trigger] blocks[i]) == model::is_live(others[i])
    &&& forall|i: int|
        0 <= i < blocks.len() && model::is_live(#[trigger] blocks[i]) ==> others[i] == blocks[i]
}

/// Joining free blocks until none touch keeps the blocks sound and apart, touches no block in
/// use, covers the same bytes and leaves no free neighbours.
pub proof fn lemma_coalesced(blocks: Seq<HeapBlock>, heap_size: u64)
    requires
        model::blocks_apart(blocks, heap_size),
    ensures
        ({
            let after = model::coalesced(blocks);
            &&& model::blocks_apart(after, heap_size)
            &&& model::settled(after)
            &&& same_live(blocks, after)
            &&& model::sum_of(after, model::taken_bytes()) == model::sum_of(
                blocks,
                model::taken_bytes(),
            )
            &&& model::sum_of(after, model::free_bytes()) == model::sum_of(
                blocks,
                model::free_bytes(),
            )
            &&& model::sum_of(after, model::requested_bytes()) == model::sum_of(
                blocks,
                model::requested_bytes(),
            )
            &&& model::sum_of(after, model::one_if_live()) == model::sum_of(
                blocks,
                model::one_if_live(),
            )
            &&& 0 <= model::sum_of(after, model::one_if_active()) <= model::sum_of(
                blocks,
                model::one_if_active(),
            )
        }),
    decreases model::sum_of(blocks, model::one_if_active()),
{
    model::lemma_pair_from(blocks, 0);
    match model::pair_from(blocks, 0) {
        None => {
            model::lemma_sum_nonnegative(blocks, model::one_if_active());
        },
        Some((left, right)) => {
            let next = model::merge(blocks, left, right);
            model::lemma_merge_counts(blocks, left, right);
            lemma_merge(blocks, left, right, heap_size);
            lemma_coalesced(next, heap_size);
            assert(same_live(blocks, next));
            let after = model::coalesced(next);
            assert(same_live(blocks, after)) by {
                assert forall|i: int| 0 <= i < blocks.len() implies model::is_live(
                    #[trigger] blocks[i],
                ) == model::is_live(after[i]) && (model::is_live(blocks[i]) ==> after[i]
                    == blocks[i]) by {
                    assert(model::is_live(next[i]) == model::is_live(after[i]));
                }
            }
        },
    }
}

/// A heap with the same region and counters of pages keeps the invariant where its blocks do.
proof fn lemma_inv_from_blocks(before: HeapModel, after: HeapModel)
    requires
        before.inv(),
        before.initialized,
        after.initialized,
        after.region == before.region,
        after.records_intact == before.records_intact,
        after.mapped_pages == before.mapped_pages,
        after.blocks.len() == 96,
        after.recent_frees.len() == 16,
        0 <= after.recent_free_index < 16,
        model::tiled(after.blocks, after.region.size),
        model::settled(after.blocks),
    ensures
        after.inv(),
{
}

/// An allocation keeps the invariant.
pub proof fn lemma_alloc_inv(heap: HeapModel, size: u64, align: u64)
    requires
        heap.inv(),
    ensures
        heap.alloc_model(size, align).inv(),
{
    if heap.can_alloc(size, align) {
        lemma_alloc_blocks(heap, size, align);
        lemma_inv_from_blocks(heap, heap.alloc_model(size, align));
    }
}

/// What an allocation does to the blocks: block `index` is now in use, no other block in use
/// has changed, and the whole still tiles the region without free neighbours.
pub proof fn lemma_alloc_blocks(heap: HeapModel, size: u64, align: u64)
    requires
        heap.inv(),
        heap.can_alloc(size, align),
    ensures
        ({
            let blocks = heap.blocks;
            let index = model::first_fit(blocks, size, align)->0;
            let after = model::after_alloc(blocks, index, size, align);
            let block = after[index];
            &&& 0 <= index < 96
            &&& after.len() == 96
            &&& model::tiled(after, heap.region.size)
            &&& model::settled(after)
            &&& model::is_free(blocks[index])
            &&& model::is_live(block)
            &&& model::sound(block, heap.region.size)
            &&& block.offset == blocks[index].offset
            &&& block.size <= blocks[index].size
            &&& block.payload_offset == model::payload_start(
                blocks[index],
                model::effective(align),
            )
            &&& block.payload_offset % align == 0
            &&& block.requested_size == size
            &&& forall|i: int|
                0 <= i < 96 && i != index ==> model::is_live(#[trigger] after[i])
                    == model::is_live(blocks[i])
            &&& forall|i: int|
                0 <= i < 96 && model::is_live(#[trigger] blocks[i]) ==> after[i] == blocks[i]
            &&& forall|i: int|
                0 <= i < 96 && i != index && model::is_live(#[trigger] after[i]) ==> model::apart(
                    block,
                    after[i],
                )
            &&& model::sum_of(after, model::requested_bytes()) == model::sum_of(
                blocks,
                model::requested_bytes(),
            ) + size
            &&& model::sum_of(after, model::one_if_live()) == model::sum_of(
                blocks,
                model::one_if_live(),
            ) + 1
        }),
{
    let blocks = heap.blocks;
    let heap_size = heap.region.size;
    let eff = model::effective(align);
    lemma_index_where(blocks, model::fitting(size, eff), 0);
    let index = model::first_fit(blocks, size, align)->0;
    let block = blocks[index];
    lemma_region_bound(heap.region);
    lemma_fit(block, size, align, heap_size);
    let end = model::used_end(block, size, eff);
    let rest = model::end_of(block) - end;
    lemma_index_where(blocks, model::unused(), 0);
    let slot = model::index_where(blocks, model::unused(), 0);
    let after = model::after_alloc(blocks, index, size, align);
    let splits = rest >= 32 && slot is Some;
    let given = if splits {
        model::given_out(block, size, align, end - block.offset)
    } else {
        model::given_out(block, size, align, block.size as int)
    };
    assert(after[index] == given);
    assert(given.payload_offset % align == 0) by {
        bits::lemma_small_pow2();
        bits::lemma_is_pow2_pos(align as int);
        bits::lemma_pow2_divides(align as int, eff);
        lemma_mod_divides(given.payload_offset as int, align as int, eff);
    }
    model::lemma_sum_update(blocks, index, given, model::taken_bytes());
    model::lemma_sum_update(blocks, index, given, model::requested_bytes());
    model::lemma_sum_update(blocks, index, given, model::one_if_live());
    if splits {
        let half = blocks.update(index, given);
        let free = model::free_block(end, rest);
        model::lemma_sum_update(half, slot->0, free, model::taken_bytes());
        model::lemma_sum_update(half, slot->0, free, model::requested_bytes());
        model::lemma_sum_update(half, slot->0, free, model::one_if_live());
        assert(after[slot->0] == free);
    }
    assert forall|i: int| 0 <= i < 96 && (#[trigger] after[i]).active implies model::sound(
        after[i],
        heap_size,
    ) by {
        if i != index && !(splits && i == slot->0) {
            assert(after[i] == blocks[i]);
        }
    }
    assert forall|i: int, j: int|
        0 <= i < 96 && 0 <= j < 96 && i != j && (#[trigger] after[i]).active && (
        #[trigger] after[j]).active implies model::apart(after[i], after[j]) by {
        let in_new = |k: int| k == index || (splits && k == slot->0);
        let oi = if in_new(i) {
            index
        } else {
            i
        };
        let oj = if in_new(j) {
            index
        } else {
            j
        };
        if oi != oj {
            lemma_apart_both(blocks, oi, oj, heap_size);
        }
    }
    assert forall|i: int, j: int|
        #![trigger after[i], after[j]]
        0 <= i < 96 && 0 <= j < 96 implies !model::touching(after, i, j) by {
        if model::touching(after, i, j) {
            assert(i != index && j != index);
            lemma_sound(after[i], heap_size);
            lemma_sound(after[j], heap_size);
            if splits && (i == slot->0 || j == slot->0) {
                let k = if i == slot->0 {
                    j
                } else {
                    i
                };
                assert(after[k] == blocks[k]);
                lemma_apart_both(blocks, index, k, heap_size);
                lemma_sound(blocks[k], heap_size);
                assert(!model::touching(blocks, index, k));
                assert(!model::touching(blocks, k, index));
                assert(false);
            } else {
                assert(after[i] == blocks[i] && after[j] == blocks[j]);
                assert(!model::touching(blocks, i, j));
            }
        }
    }
}

/// Where the records are in order, those behind an allocation can be walked, and the canaries of
/// the block that was given out lie in memory.
pub proof fn lemma_alloc_readable(heap: HeapModel, memory: Seq<u8>, size: u64, align: u64)
    requires
        heap.readable(memory),
        heap.can_alloc(size, align),
    ensures
        ({
            let index = model::first_fit(heap.blocks, size, align)->0;
            let after = model::after_alloc(heap.blocks, index, size, align);
            &&& 0 <= index < heap.blocks.len()
            &&& model::is_live(after[index])
            &&& after[index].payload_offset >= 8
            &&& model::payload_end_of(after[index]) + 8 <= memory.len()
            &&& model::canaries_readable(after, memory)
        }),
{
    let blocks = heap.blocks;
    let eff = model::effective(align);
    lemma_index_where(blocks, model::fitting(size, eff), 0);
    lemma_index_where(blocks, model::unused(), 0);
    let index = model::first_fit(blocks, size, align)->0;
    let after = model::after_alloc(blocks, index, size, align);
    lemma_region_bound(heap.region);
    lemma_fit(blocks[index], size, align, heap.region.size);
    assert forall|i: int|
        0 <= i < after.len() && model::is_live(#[trigger] after[i]) && model::shape_ok(
            after[i],
        ) implies model::payload_end_of(after[i]) + 8 <= memory.len() by {
        if i != index {
            assert(after[i] == blocks[i]);
        }
    }
}

/// A multiple of a multiple is a multiple.
pub proof fn lemma_mod_divides(value: int, small: int, large: int)
    requires
        0 < small,
        0 < large,
        large % small == 0,
        value % large == 0,
    ensures
        value % small == 0,
{
    let q = value / large;
    let p = large / small;
    vstd::arithmetic::div_mod::lemma_fundamental_div_mod(value, large);
    vstd::arithmetic::div_mod::lemma_fundamental_div_mod(large, small);
    assert(value == small * (p * q)) by (nonlinear_arith)
        requires
            value == large * q,
            large == small * p,
    ;
    vstd::arithmetic::div_mod::lemma_mod_multiples_basic(p * q, small);
    vstd::arithmetic::mul::lemma_mul_is_commutative(p * q, small);
}

/// Giving back a block in use keeps the invariant and touches no other block in use.
pub proof fn lemma_release(heap: HeapModel, index: int, address: u64)
    requires
        heap.inv(),
        heap.initialized,
        0 <= index < 96,
        model::is_live(heap.blocks[index]),
    ensures
        ({
            let after = heap.released(index, address);
            &&& after.inv()
            &&& after.initialized
            &&& same_live(heap.blocks.update(index, model::no_block()), after.blocks)
            &&& model::blocks_apart(heap.blocks_after_free(index), heap.region.size)
            &&& model::sum_of(after.blocks, model::requested_bytes()) == model::sum_of(
                heap.blocks,
                model::requested_bytes(),
            ) - heap.blocks[index].requested_size
            &&& model::sum_of(after.blocks, model::one_if_live()) == model::sum_of(
                heap.blocks,
                model::one_if_live(),
            ) - 1
        }),
{
    let blocks = heap.blocks;
    let after = heap.blocks_after_free(index);
    let freed = after[index];
    model::lemma_sum_update(blocks, index, freed, model::taken_bytes());
    model::lemma_sum_update(blocks, index, freed, model::requested_bytes());
    model::lemma_sum_update(blocks, index, freed, model::one_if_live());
    assert forall|i: int| 0 <= i < 96 && (#[trigger] after[i]).active implies model::sound(
        after[i],
        heap.region.size,
    ) by {
        assert(model::sound(blocks[i], heap.region.size));
    }
    assert forall|i: int, j: int|
        0 <= i < j < 96 && (#[trigger] after[i]).active && (
        #[trigger] after[j]).active implies model::apart(after[i], after[j]) by {
        assert(model::apart(blocks[i], blocks[j]));
    }
    lemma_coalesced(after, heap.region.size);
    lemma_inv_from_blocks(heap, heap.released(index, address));
    let end = model::coalesced(after);
    let without = blocks.update(index, model::no_block());
    assert forall|i: int| 0 <= i < 96 implies model::is_live(#[trigger] without[i])
        == model::is_live(end[i]) && (model::is_live(without[i]) ==> end[i] == without[i]) by {
        assert(model::is_live(after[i]) == model::is_live(end[i]));
    }
}

/// Freeing keeps the invariant.
pub proof fn lemma_free_inv(heap: HeapModel, memory: Seq<u8>, address: u64)
    requires
        heap.inv(),
    ensures
        heap.free_model(memory, address).inv(),
{
    if heap.free_result(memory, address) is Ok {
        lemma_index_where(
            heap.blocks,
            model::live_at(address - heap.region.base),
            0,
        );
        lemma_release(heap, heap.find_address(address)->0, address);
    }
}

} // verus!
