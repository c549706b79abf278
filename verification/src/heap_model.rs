//! The mathematical model of the kernel heap: blocks, the room they take, and what each
//! operation does to them.
use crate::{bits, bytes};
use vstd::prelude::*;

verus! {

pub const HEAP_SENTINEL_BYTES: u64 = 64;

pub const BLOCK_MAGIC: u64 = 0x4842_4c4f_434b_3031;

pub const ALLOC_CANARY_HEAD: u64 = 0x4845_4150_4845_4144;

pub const ALLOC_CANARY_TAIL: u64 = 0x4845_4150_5441_494c;

pub const ALLOC_CANARY_BYTES: u64 = 8;

pub const MIN_SPLIT_BYTES: u64 = 32;

pub const MAX_BLOCKS: usize = 96;

pub const RECENT_FREE_COUNT: usize = 16;

pub const MAX_ALIGNMENT: u64 = 4096;

/// The stretch of memory that the heap manages, and the guard pages beside it.
#[derive(Clone, Copy, PartialEq, Eq, Structural)]
pub struct HeapRegion {
    pub base: u64,
    pub size: u64,
    pub guard_low: u64,
    pub guard_high: u64,
}

impl HeapRegion {
    /// Whole pages, at least one, with addresses that fit.
    pub open spec fn valid(self) -> bool {
        &&& self.base % 4096 == 0
        &&& self.size % 4096 == 0
        &&& self.size > 0
        &&& self.base + self.size <= u64::MAX
    }

    /// How many pages the region has.
    pub open spec fn pages(self) -> int {
        self.size as int / 4096
    }
}

/// The heap's record of one stretch of its region.
#[derive(Clone, Copy, PartialEq, Eq, Structural)]
pub struct HeapBlock {
    pub magic: u64,
    pub offset: u64,
    pub size: u64,
    pub payload_offset: u64,
    pub requested_size: u64,
    pub alignment: u64,
    pub allocated: bool,
    pub active: bool,
}

/// A record that stands for nothing.
pub open spec fn no_block() -> HeapBlock {
    HeapBlock {
        magic: 0,
        offset: 0,
        size: 0,
        payload_offset: 0,
        requested_size: 0,
        alignment: 0,
        allocated: false,
        active: false,
    }
}

/// A stretch that is free.
pub open spec fn free_block(offset: int, size: int) -> HeapBlock {
    HeapBlock {
        magic: BLOCK_MAGIC,
        offset: offset as u64,
        size: size as u64,
        payload_offset: 0,
        requested_size: 0,
        alignment: 0,
        allocated: false,
        active: true,
    }
}

/// Where a block ends.
pub open spec fn end_of(block: HeapBlock) -> int {
    bits::sat(block.offset + block.size)
}

/// Where the payload of a block ends.
pub open spec fn payload_end_of(block: HeapBlock) -> int {
    bits::sat(block.payload_offset + block.requested_size)
}

/// A block in use.
pub open spec fn is_live(block: HeapBlock) -> bool {
    block.active && block.allocated
}

/// A block free to be given out.
pub open spec fn is_free(block: HeapBlock) -> bool {
    block.active && !block.allocated
}

/// The first index from `from` on whose block meets `wanted`.
pub open spec fn index_where(
    blocks: Seq<HeapBlock>,
    wanted: spec_fn(HeapBlock) -> bool,
    from: int,
) -> Option<int>
    decreases blocks.len() - from,
{
    if from < 0 || from >= blocks.len() {
        None
    } else if wanted(blocks[from]) {
        Some(from)
    } else {
        index_where(blocks, wanted, from + 1)
    }
}

/// The sum of `weight` over the blocks.
pub open spec fn sum_of(blocks: Seq<HeapBlock>, weight: spec_fn(HeapBlock) -> int) -> int
    decreases blocks.len(),
{
    if blocks.len() == 0 {
        0
    } else {
        sum_of(blocks.drop_last(), weight) + weight(blocks.last())
    }
}

/// The largest free block's size.
pub open spec fn largest_free(blocks: Seq<HeapBlock>) -> int
    decreases blocks.len(),
{
    if blocks.len() == 0 {
        0
    } else if is_free(blocks.last()) {
        bits::max_of(largest_free(blocks.drop_last()), blocks.last().size as int)
    } else {
        largest_free(blocks.drop_last())
    }
}

/// Weighs a block by the bytes that were asked for when it was given out.
pub open spec fn requested_bytes() -> spec_fn(HeapBlock) -> int {
    |block: HeapBlock|
        if is_live(block) {
            block.requested_size as int
        } else {
            0
        }
}

/// Weighs a free block by its bytes.
pub open spec fn free_bytes() -> spec_fn(HeapBlock) -> int {
    |block: HeapBlock|
        if is_free(block) {
            block.size as int
        } else {
            0
        }
}

/// Weighs a block by the bytes it takes up.
pub open spec fn taken_bytes() -> spec_fn(HeapBlock) -> int {
    |block: HeapBlock|
        if block.active {
            block.size as int
        } else {
            0
        }
}

/// Counts the blocks in use.
pub open spec fn one_if_live() -> spec_fn(HeapBlock) -> int {
    |block: HeapBlock|
        if is_live(block) {
            1int
        } else {
            0
        }
}

/// Counts the free blocks.
pub open spec fn one_if_free() -> spec_fn(HeapBlock) -> int {
    |block: HeapBlock|
        if is_free(block) {
            1int
        } else {
            0
        }
}

/// Counts the blocks.
pub open spec fn one_if_active() -> spec_fn(HeapBlock) -> int {
    |block: HeapBlock|
        if block.active {
            1int
        } else {
            0
        }
}

/// The record is genuine and its stretch lies in the region, behind the sentinel.
pub open spec fn in_heap(block: HeapBlock, heap_size: u64) -> bool {
    &&& block.magic == BLOCK_MAGIC
    &&& block.size != 0
    &&& block.offset >= HEAP_SENTINEL_BYTES
    &&& end_of(block) <= heap_size
}

/// The payload lies inside its block with room for a canary on each side, and is aligned.
pub open spec fn shape_ok(block: HeapBlock) -> bool {
    &&& block.payload_offset >= bits::sat(block.offset + 8)
    &&& bits::sat(payload_end_of(block) + 8) <= end_of(block)
    &&& block.alignment >= 8
    &&& bits::is_pow2(block.alignment as int)
    &&& block.payload_offset % block.alignment == 0
}

/// Two blocks share a byte.
pub open spec fn overlap(left: HeapBlock, right: HeapBlock) -> bool {
    left.offset < end_of(right) && right.offset < end_of(left)
}

/// The two canaries of a block stand in memory.
pub open spec fn canaries_stand(block: HeapBlock, memory: Seq<u8>) -> bool {
    &&& bytes::le_at(memory, block.payload_offset - 8, 8) == ALLOC_CANARY_HEAD
    &&& bytes::le_at(memory, payload_end_of(block), 8) == ALLOC_CANARY_TAIL
}

/// The records are in order: every active one is genuine, lies in the region behind the sentinel
/// and, where it is in use, has a sound shape; no two share a byte; once the heap is in use they
/// add up to the region without its sentinel; and no more is given out and free than there is.
pub open spec fn records_ok(
    blocks: Seq<HeapBlock>,
    heap_size: u64,
    initialized: bool,
) -> bool {
    &&& forall|i: int|
        0 <= i < blocks.len() && (#[trigger] blocks[i]).active ==> in_heap(blocks[i], heap_size)
            && (blocks[i].allocated ==> shape_ok(blocks[i]))
    &&& forall|i: int, j: int|
        0 <= i < j < blocks.len() && (#[trigger] blocks[i]).active && (#[trigger] blocks[j]).active
            ==> !overlap(blocks[i], blocks[j])
    &&& initialized ==> bits::sat(sum_of(blocks, taken_bytes())) == bits::max_of(
        heap_size - 64,
        0,
    )
    &&& bits::sat(
        bits::sat(sum_of(blocks, requested_bytes())) + bits::sat(sum_of(blocks, free_bytes())),
    ) <= heap_size
}

/// The canaries of every block in use that has a sound shape lie in memory.
pub open spec fn canaries_readable(blocks: Seq<HeapBlock>, memory: Seq<u8>) -> bool {
    forall|i: int|
        0 <= i < blocks.len() && is_live(#[trigger] blocks[i]) && shape_ok(blocks[i])
            ==> payload_end_of(blocks[i]) + 8 <= memory.len()
}

/// Every block in use has a sound shape and standing canaries.
pub open spec fn canaries_ok(blocks: Seq<HeapBlock>, memory: Seq<u8>) -> bool {
    forall|i: int|
        0 <= i < blocks.len() && is_live(#[trigger] blocks[i]) ==> shape_ok(blocks[i])
            && canaries_stand(blocks[i], memory)
}

/// A block that the heap's own operations can have made.
pub open spec fn sound(block: HeapBlock, heap_size: u64) -> bool {
    &&& block.magic == BLOCK_MAGIC
    &&& 0 < block.size
    &&& 64 <= block.offset
    &&& block.offset + block.size <= heap_size
    &&& block.allocated ==> {
        &&& 0 < block.requested_size
        &&& block.offset + 8 <= block.payload_offset
        &&& block.payload_offset + block.requested_size + 8 <= block.offset + block.size
        &&& 8 <= block.alignment <= 4096
        &&& bits::is_pow2(block.alignment as int)
        &&& block.payload_offset % block.alignment == 0
    }
}

/// One block ends before the other starts.
pub open spec fn apart(left: HeapBlock, right: HeapBlock) -> bool {
    ||| left.offset + left.size <= right.offset
    ||| right.offset + right.size <= left.offset
}

/// One free block starts where the other ends.
pub open spec fn touching(blocks: Seq<HeapBlock>, left: int, right: int) -> bool {
    &&& left != right
    &&& is_free(blocks[left])
    &&& is_free(blocks[right])
    &&& (end_of(blocks[left]) == blocks[right].offset || end_of(blocks[right])
        == blocks[left].offset)
}

/// No free block touches another.
pub open spec fn settled(blocks: Seq<HeapBlock>) -> bool {
    forall|i: int, j: int|
        #![trigger blocks[i], blocks[j]]
        0 <= i < blocks.len() && 0 <= j < blocks.len() ==> !touching(blocks, i, j)
}

/// The active blocks are sound and apart.
pub open spec fn blocks_apart(blocks: Seq<HeapBlock>, heap_size: u64) -> bool {
    &&& forall|i: int|
        0 <= i < blocks.len() && (#[trigger] blocks[i]).active ==> sound(blocks[i], heap_size)
    &&& forall|i: int, j: int|
        0 <= i < j < blocks.len() && (#[trigger] blocks[i]).active && (#[trigger] blocks[j]).active
            ==> apart(blocks[i], blocks[j])
}

/// The active blocks are sound, apart, and cover the whole region behind the sentinel.
pub open spec fn tiled(blocks: Seq<HeapBlock>, heap_size: u64) -> bool {
    &&& blocks_apart(blocks, heap_size)
    &&& sum_of(blocks, taken_bytes()) == heap_size - 64
}

/// What `right`, which touches `left`, adds to it.
pub open spec fn joined(left: HeapBlock, right: HeapBlock) -> HeapBlock {
    HeapBlock {
        offset: if end_of(left) == right.offset {
            left.offset
        } else {
            right.offset
        },
        size: bits::sat(left.size + right.size) as u64,
        ..left
    }
}

/// The blocks after `right` has been joined to `left`.
pub open spec fn merge(blocks: Seq<HeapBlock>, left: int, right: int) -> Seq<HeapBlock> {
    blocks.update(left, joined(blocks[left], blocks[right])).update(right, no_block())
}

/// The first index from `from` on whose block touches block `left`.
pub open spec fn touching_from(blocks: Seq<HeapBlock>, left: int, from: int) -> Option<int>
    decreases blocks.len() - from,
{
    if from < 0 || from >= blocks.len() {
        None
    } else if touching(blocks, left, from) {
        Some(from)
    } else {
        touching_from(blocks, left, from + 1)
    }
}

/// The first pair of touching blocks whose first index is `from` or above.
pub open spec fn pair_from(blocks: Seq<HeapBlock>, from: int) -> Option<(int, int)>
    decreases blocks.len() - from,
{
    if from < 0 || from >= blocks.len() {
        None
    } else if touching_from(blocks, from, 0) is Some {
        Some((from, touching_from(blocks, from, 0)->0))
    } else {
        pair_from(blocks, from + 1)
    }
}

/// The blocks after free neighbours have been joined until none touch, each time the first
/// pair that does.
pub open spec fn coalesced(blocks: Seq<HeapBlock>) -> Seq<HeapBlock>
    decreases sum_of(blocks, one_if_active()),
{
    match pair_from(blocks, 0) {
        None => blocks,
        Some((left, right)) => {
            proof {
                lemma_pair_from(blocks, 0);
                lemma_merge_counts(blocks, left, right);
            }
            coalesced(merge(blocks, left, right))
        },
    }
}

/// A sum after one block has been replaced.
pub proof fn lemma_sum_update(
    blocks: Seq<HeapBlock>,
    index: int,
    block: HeapBlock,
    weight: spec_fn(HeapBlock) -> int,
)
    requires
        0 <= index < blocks.len(),
    ensures
        sum_of(blocks.update(index, block), weight) == sum_of(blocks, weight) - weight(
            blocks[index],
        ) + weight(block),
    decreases blocks.len(),
{
    if index == blocks.len() - 1 {
        assert(blocks.update(index, block).drop_last() =~= blocks.drop_last());
    } else {
        lemma_sum_update(blocks.drop_last(), index, block, weight);
        assert(blocks.update(index, block).drop_last() =~= blocks.drop_last().update(index, block));
    }
}

/// A sum of weights that are not negative is not negative, nor below any of them.
pub proof fn lemma_sum_nonnegative(blocks: Seq<HeapBlock>, weight: spec_fn(HeapBlock) -> int)
    requires
        forall|block: HeapBlock| #[trigger] weight(block) >= 0,
    ensures
        sum_of(blocks, weight) >= 0,
        forall|i: int| 0 <= i < blocks.len() ==> weight(#[trigger] blocks[i]) <= sum_of(blocks, weight),
    decreases blocks.len(),
{
    if blocks.len() > 0 {
        lemma_sum_nonnegative(blocks.drop_last(), weight);
        assert(weight(blocks.last()) >= 0);
        assert forall|i: int| 0 <= i < blocks.len() implies weight(#[trigger] blocks[i]) <= sum_of(
            blocks,
            weight,
        ) by {
            if i < blocks.len() - 1 {
                assert(blocks.drop_last()[i] == blocks[i]);
            }
        }
    }
}

/// What `touching_from` finds does touch, and where it finds nothing nothing does.
pub proof fn lemma_touching_from(blocks: Seq<HeapBlock>, left: int, from: int)
    requires
        0 <= from,
    ensures
        match touching_from(blocks, left, from) {
            Some(right) => from <= right < blocks.len() && touching(blocks, left, right),
            None => forall|right: int|
                from <= right < blocks.len() ==> !#[trigger] touching(blocks, left, right),
        },
    decreases blocks.len() - from,
{
    if from < blocks.len() && !touching(blocks, left, from) {
        lemma_touching_from(blocks, left, from + 1);
    }
}

/// What `pair_from` finds does touch, and where it finds nothing nothing does.
pub proof fn lemma_pair_from(blocks: Seq<HeapBlock>, from: int)
    requires
        0 <= from,
    ensures
        match pair_from(blocks, from) {
            Some((left, right)) => from <= left < blocks.len() && 0 <= right < blocks.len()
                && touching(blocks, left, right),
            None => forall|left: int, right: int|
                from <= left < blocks.len() && 0 <= right < blocks.len() ==> !#[trigger] touching(
                    blocks,
                    left,
                    right,
                ),
        },
    decreases blocks.len() - from,
{
    if from < blocks.len() {
        lemma_touching_from(blocks, from, 0);
        if touching_from(blocks, from, 0) is None {
            lemma_pair_from(blocks, from + 1);
        }
    }
}

/// Joining two blocks leaves one block less, and the same bytes where nothing saturates.
pub proof fn lemma_merge_counts(blocks: Seq<HeapBlock>, left: int, right: int)
    requires
        0 <= left < blocks.len(),
        0 <= right < blocks.len(),
        touching(blocks, left, right),
    ensures
        sum_of(merge(blocks, left, right), one_if_active()) == sum_of(blocks, one_if_active()) - 1,
        sum_of(merge(blocks, left, right), one_if_active()) >= 0,
        sum_of(merge(blocks, left, right), one_if_live()) == sum_of(blocks, one_if_live()),
        sum_of(merge(blocks, left, right), requested_bytes()) == sum_of(blocks, requested_bytes()),
        blocks[left].size + blocks[right].size <= u64::MAX ==> sum_of(
            merge(blocks, left, right),
            taken_bytes(),
        ) == sum_of(blocks, taken_bytes()),
{
    let first = joined(blocks[left], blocks[right]);
    let half = blocks.update(left, first);
    lemma_sum_update(blocks, left, first, one_if_active());
    lemma_sum_update(half, right, no_block(), one_if_active());
    lemma_sum_nonnegative(merge(blocks, left, right), one_if_active());
    lemma_sum_update(blocks, left, first, one_if_live());
    lemma_sum_update(half, right, no_block(), one_if_live());
    lemma_sum_update(blocks, left, first, requested_bytes());
    lemma_sum_update(half, right, no_block(), requested_bytes());
    lemma_sum_update(blocks, left, first, taken_bytes());
    lemma_sum_update(half, right, no_block(), taken_bytes());
}

/// Everything the heap knows, with its tables as sequences.
#[verifier::ext_equal]
pub struct HeapModel {
    pub region: HeapRegion,
    pub records_intact: bool,
    pub initialized: bool,
    pub mapped_pages: u64,
    pub allocations: u64,
    pub frees: u64,
    pub failed_allocations: u64,
    pub failed_frees: u64,
    pub double_frees: u64,
    pub invalid_frees: u64,
    pub coalesces: u64,
    pub high_watermark: u64,
    pub corruption_checks: u64,
    pub corruption_failures: u64,
    pub corruption_detections: u64,
    pub blocks: Seq<HeapBlock>,
    pub recent_frees: Seq<u64>,
    pub recent_free_index: int,
}

impl HeapModel {
    /// What the heap's operations keep up: records that tile the region once it is in use, with
    /// no free neighbours, and none before.
    pub open spec fn inv(self) -> bool {
        &&& self.region.valid()
        &&& self.records_intact
        &&& self.mapped_pages <= self.region.pages()
        &&& self.initialized ==> self.mapped_pages == self.region.pages()
        &&& self.blocks.len() == 96
        &&& self.recent_frees.len() == 16
        &&& 0 <= self.recent_free_index < 16
        &&& self.initialized ==> tiled(self.blocks, self.region.size) && settled(self.blocks)
        &&& !self.initialized ==> forall|i: int|
            0 <= i < 96 ==> !(#[trigger] self.blocks[i]).active
    }

    /// The heap's own records pass every check.
    pub open spec fn metadata_ok(self) -> bool {
        &&& self.records_intact
        &&& self.mapped_pages <= self.region.pages()
        &&& !self.initialized || self.mapped_pages == self.region.pages()
        &&& records_ok(self.blocks, self.region.size, self.initialized)
    }

    /// `memory` is the heap's region, once there is one.
    pub open spec fn backed_by(self, memory: Seq<u8>) -> bool {
        self.initialized ==> memory.len() == self.region.size
    }

    /// The records can be walked, in order or not: `memory` is the region of the heap, and holds
    /// the canaries of every block in use that has a sound shape.
    pub open spec fn readable(self, memory: Seq<u8>) -> bool {
        &&& self.region.valid()
        &&& self.backed_by(memory)
        &&& canaries_readable(self.blocks, memory)
    }

    /// The index of the block in use whose payload starts at `offset`.
    pub open spec fn find(self, offset: int) -> Option<int> {
        index_where(self.blocks, live_at(offset), 0)
    }

    /// `address` was freed a short while ago.
    pub open spec fn recently_freed(self, address: u64) -> bool {
        address != 0 && self.recent_frees.contains(address)
    }
}

/// Picks the block in use whose payload starts at `offset`.
pub open spec fn live_at(offset: int) -> spec_fn(HeapBlock) -> bool {
    |block: HeapBlock| is_live(block) && block.payload_offset == offset
}

/// Picks an unused record.
pub open spec fn unused() -> spec_fn(HeapBlock) -> bool {
    |block: HeapBlock| !block.active
}

/// An alignment that can be asked for.
pub open spec fn alignment_ok(align: u64) -> bool {
    bits::is_pow2(align as int) && align <= MAX_ALIGNMENT
}

/// The alignment that is given: at least that of a canary.
pub open spec fn effective(align: u64) -> int {
    bits::max_of(align as int, 8)
}

/// Where the payload of an allocation in `block` starts.
pub open spec fn payload_start(block: HeapBlock, align: int) -> int {
    bits::sat_ceil_to(bits::sat(block.offset + 8), align)
}

/// Where the canary behind an allocation in `block` ends.
pub open spec fn used_end(block: HeapBlock, size: u64, align: int) -> int {
    bits::sat(bits::sat(payload_start(block, align) + size) + 8)
}

/// Picks a free block with room for the allocation.
pub open spec fn fitting(size: u64, align: int) -> spec_fn(HeapBlock) -> bool {
    |block: HeapBlock| is_free(block) && used_end(block, size, align) <= end_of(block)
}

/// The first block with room for the allocation.
pub open spec fn first_fit(blocks: Seq<HeapBlock>, size: u64, align: u64) -> Option<int> {
    index_where(blocks, fitting(size, effective(align)), 0)
}

/// `block` given out: `taken` of its bytes, with the payload where the alignment puts it.
pub open spec fn given_out(block: HeapBlock, size: u64, align: u64, taken: int) -> HeapBlock {
    HeapBlock {
        magic: BLOCK_MAGIC,
        offset: block.offset,
        size: taken as u64,
        payload_offset: payload_start(block, effective(align)) as u64,
        requested_size: size,
        alignment: effective(align) as u64,
        allocated: true,
        active: true,
    }
}

/// The blocks after an allocation in block `index`. What is left over becomes a free block of
/// its own where it is large enough and a record is to be had.
pub open spec fn after_alloc(
    blocks: Seq<HeapBlock>,
    index: int,
    size: u64,
    align: u64,
) -> Seq<HeapBlock> {
    let block = blocks[index];
    let end = used_end(block, size, effective(align));
    let rest = end_of(block) - end;
    let slot = index_where(blocks, unused(), 0);
    if rest >= MIN_SPLIT_BYTES && slot is Some {
        blocks.update(index, given_out(block, size, align, end - block.offset)).update(
            slot->0,
            free_block(end, rest),
        )
    } else {
        blocks.update(index, given_out(block, size, align, block.size as int))
    }
}

/// `memory` with the canaries of `block` in place.
pub open spec fn with_canaries(memory: Seq<u8>, block: HeapBlock) -> Seq<u8> {
    bytes::overwrite(
        bytes::overwrite(
            memory,
            block.payload_offset - 8,
            bytes::le_bytes(ALLOC_CANARY_HEAD as nat, 8),
        ),
        payload_end_of(block),
        bytes::le_bytes(ALLOC_CANARY_TAIL as nat, 8),
    )
}

impl HeapModel {
    /// An allocation of `size` bytes can be made.
    pub open spec fn can_alloc(self, size: u64, align: u64) -> bool {
        &&& self.initialized
        &&& self.metadata_ok()
        &&& size != 0
        &&& alignment_ok(align)
        &&& first_fit(self.blocks, size, align) is Some
    }

    /// The address that an allocation returns.
    pub open spec fn alloc_result(self, size: u64, align: u64) -> Option<u64> {
        if self.can_alloc(size, align) {
            let index = first_fit(self.blocks, size, align)->0;
            Some(
                bits::sat(
                    self.region.base + payload_start(self.blocks[index], effective(align)),
                ) as u64,
            )
        } else {
            None
        }
    }

    /// The heap after an allocation, or after the attempt.
    pub open spec fn alloc_model(self, size: u64, align: u64) -> HeapModel {
        if self.can_alloc(size, align) {
            let index = first_fit(self.blocks, size, align)->0;
            let blocks = after_alloc(self.blocks, index, size, align);
            HeapModel {
                blocks,
                allocations: self.allocations.saturating_add(1),
                high_watermark: bits::max_of(
                    self.high_watermark as int,
                    bits::sat(sum_of(blocks, requested_bytes())),
                ) as u64,
                ..self
            }
        } else {
            HeapModel { failed_allocations: self.failed_allocations.saturating_add(1), ..self }
        }
    }

    /// The region's bytes after an allocation, or after the attempt.
    pub open spec fn alloc_memory(self, memory: Seq<u8>, size: u64, align: u64) -> Seq<u8> {
        if self.can_alloc(size, align) {
            let index = first_fit(self.blocks, size, align)->0;
            with_canaries(memory, after_alloc(self.blocks, index, size, align)[index])
        } else {
            memory
        }
    }

    /// The block in use that `address` belongs to.
    pub open spec fn find_address(self, address: u64) -> Option<int> {
        if address < self.region.base {
            None
        } else {
            self.find(address - self.region.base)
        }
    }

    /// What freeing `address` is answered.
    pub open spec fn free_result(self, memory: Seq<u8>, address: u64) -> Result<(), FreeError> {
        if !self.initialized {
            Err(FreeError::NotInitialized)
        } else if self.find_address(address) is Some {
            if canaries_stand(self.blocks[self.find_address(address)->0], memory) {
                Ok(())
            } else {
                Err(FreeError::Corruption)
            }
        } else if self.recently_freed(address) {
            Err(FreeError::DoubleFree)
        } else {
            Err(FreeError::InvalidPointer)
        }
    }

    /// The blocks after block `index` has been given back.
    pub open spec fn blocks_after_free(self, index: int) -> Seq<HeapBlock> {
        self.blocks.update(
            index,
            HeapBlock {
                allocated: false,
                payload_offset: 0,
                requested_size: 0,
                alignment: 0,
                ..self.blocks[index]
            },
        )
    }

    /// The heap after block `index`, given out at `address`, has been given back.
    pub open spec fn released(self, index: int, address: u64) -> HeapModel {
        let blocks = self.blocks_after_free(index);
        let joins = sum_of(blocks, one_if_active()) - sum_of(coalesced(blocks), one_if_active());
        HeapModel {
            blocks: coalesced(blocks),
            frees: self.frees.saturating_add(1),
            recent_frees: self.recent_frees.update(self.recent_free_index, address),
            recent_free_index: (self.recent_free_index + 1) % 16,
            coalesces: bits::sat(self.coalesces + joins) as u64,
            ..self
        }
    }

    /// The heap after `address` has been freed, or after the attempt.
    pub open spec fn free_model(self, memory: Seq<u8>, address: u64) -> HeapModel {
        match self.free_result(memory, address) {
            Ok(_) => self.released(self.find_address(address)->0, address),
            Err(FreeError::NotInitialized) => HeapModel {
                failed_frees: self.failed_frees.saturating_add(1),
                ..self
            },
            Err(FreeError::Corruption) => HeapModel {
                failed_frees: self.failed_frees.saturating_add(1),
                corruption_detections: self.corruption_detections.saturating_add(1),
                ..self
            },
            Err(FreeError::DoubleFree) => HeapModel {
                failed_frees: self.failed_frees.saturating_add(1),
                double_frees: self.double_frees.saturating_add(1),
                ..self
            },
            Err(FreeError::InvalidPointer) => HeapModel {
                failed_frees: self.failed_frees.saturating_add(1),
                invalid_frees: self.invalid_frees.saturating_add(1),
                ..self
            },
        }
    }
}

/// Why an address could not be freed.
#[derive(Clone, Copy, PartialEq, Eq, Structural)]
pub enum FreeError {
    NotInitialized,
    InvalidPointer,
    DoubleFree,
    Corruption,
}

} // verus!
