//! The kernel heap: a first-fit allocator with canaries over one stretch of memory.
//!
//! The stretch itself is a slice that the caller hands in with each operation. Addresses are
//! those of the machine: the region's base plus the offset into the slice.
use crate::{bits, bytes, heap_proofs, paging};
use crate::heap_model as model;
use crate::heap_model::{FreeError, HeapBlock, HeapModel, HeapRegion};
use vstd::prelude::*;

verus! {

pub const HEAP_CANARY_HEAD: u64 = 0x544f_4241_4343_4f48;

pub const HEAP_CANARY_TAIL: u64 = 0x4845_4150_5f4f_4b21;

#[derive(Clone, Copy, PartialEq, Eq, Structural)]
pub struct Snapshot {
    pub initialized: bool,
    pub base: u64,
    pub size: u64,
    pub used: u64,
    pub remaining: u64,
    pub mapped_pages: u64,
    pub allocations: u64,
    pub frees: u64,
    pub failed_allocations: u64,
    pub failed_frees: u64,
    pub double_frees: u64,
    pub invalid_frees: u64,
    pub coalesces: u64,
    pub active_allocations: u64,
    pub free_blocks: u64,
    pub metadata_blocks: u64,
    pub metadata_capacity: u64,
    pub allocated_bytes: u64,
    pub free_bytes: u64,
    pub largest_free_block: u64,
    pub high_watermark: u64,
    pub corruption_checks: u64,
    pub corruption_failures: u64,
    pub corruption_detections: u64,
    pub metadata_ok: bool,
    pub sentinel_ok: bool,
    pub allocation_canaries_ok: bool,
    pub guard_low: u64,
    pub guard_high: u64,
}

/// What a walk over the heap's records finds.
#[derive(Clone, Copy, PartialEq, Eq, Structural)]
pub struct HeapStats {
    pub allocated_bytes: u64,
    pub free_bytes: u64,
    pub largest_free_block: u64,
    pub active_allocations: u64,
    pub free_blocks: u64,
    pub metadata_blocks: u64,
    pub metadata_ok: bool,
    pub allocation_canaries_ok: bool,
}

/// The heap's records and counters.
pub struct KernelHeap {
    region: HeapRegion,
    canary_head: u64,
    initialized: bool,
    mapped_pages: u64,
    allocations: u64,
    frees: u64,
    failed_allocations: u64,
    failed_frees: u64,
    double_frees: u64,
    invalid_frees: u64,
    coalesces: u64,
    high_watermark: u64,
    corruption_checks: u64,
    corruption_failures: u64,
    corruption_detections: u64,
    blocks: [HeapBlock; model::MAX_BLOCKS],
    recent_frees: [u64; model::RECENT_FREE_COUNT],
    recent_free_index: usize,
    canary_tail: u64,
}

impl View for KernelHeap {
    type V = HeapModel;

    closed spec fn view(&self) -> HeapModel {
        HeapModel {
            region: self.region,
            records_intact: self.canary_head == HEAP_CANARY_HEAD && self.canary_tail
                == HEAP_CANARY_TAIL,
            initialized: self.initialized,
            mapped_pages: self.mapped_pages,
            allocations: self.allocations,
            frees: self.frees,
            failed_allocations: self.failed_allocations,
            failed_frees: self.failed_frees,
            double_frees: self.double_frees,
            invalid_frees: self.invalid_frees,
            coalesces: self.coalesces,
            high_watermark: self.high_watermark,
            corruption_checks: self.corruption_checks,
            corruption_failures: self.corruption_failures,
            corruption_detections: self.corruption_detections,
            blocks: self.blocks@,
            recent_frees: self.recent_frees@,
            recent_free_index: self.recent_free_index as int,
        }
    }
}

/// What a walk over the records of `heap` finds.
pub open spec fn stats_of(heap: HeapModel, memory: Seq<u8>) -> HeapStats {
    HeapStats {
        allocated_bytes: bits::sat(
            model::sum_of(heap.blocks, model::requested_bytes()),
        ) as u64,
        free_bytes: bits::sat(model::sum_of(heap.blocks, model::free_bytes())) as u64,
        largest_free_block: model::largest_free(heap.blocks) as u64,
        active_allocations: model::sum_of(heap.blocks, model::one_if_live()) as u64,
        free_blocks: model::sum_of(heap.blocks, model::one_if_free()) as u64,
        metadata_blocks: model::sum_of(heap.blocks, model::one_if_active()) as u64,
        metadata_ok: model::records_ok(heap.blocks, heap.region.size, heap.initialized),
        allocation_canaries_ok: model::canaries_ok(heap.blocks, memory),
    }
}

/// Byte `index` of the sentinel at the start of the region.
pub open spec fn sentinel_byte(index: int) -> u8 {
    0x5au8 ^ ((index * 17) % 256) as u8
}

/// The sentinel at the start of the region.
pub open spec fn sentinel() -> Seq<u8> {
    Seq::new(64, |i: int| sentinel_byte(i))
}

/// The heap is in use and its sentinel stands.
pub open spec fn sentinel_stands(heap: HeapModel, memory: Seq<u8>) -> bool {
    heap.initialized && heap.mapped_pages == heap.region.pages() && memory.take(64) == sentinel()
}

/// What `snapshot` reports.
pub open spec fn report_of(heap: HeapModel, memory: Seq<u8>) -> Snapshot {
    let stats = stats_of(heap, memory);
    Snapshot {
        initialized: heap.initialized,
        base: heap.region.base,
        size: heap.region.size,
        used: stats.allocated_bytes,
        remaining: stats.free_bytes,
        mapped_pages: heap.mapped_pages,
        allocations: heap.allocations,
        frees: heap.frees,
        failed_allocations: heap.failed_allocations,
        failed_frees: heap.failed_frees,
        double_frees: heap.double_frees,
        invalid_frees: heap.invalid_frees,
        coalesces: heap.coalesces,
        active_allocations: stats.active_allocations,
        free_blocks: stats.free_blocks,
        metadata_blocks: stats.metadata_blocks,
        metadata_capacity: 96,
        allocated_bytes: stats.allocated_bytes,
        free_bytes: stats.free_bytes,
        largest_free_block: stats.largest_free_block,
        high_watermark: heap.high_watermark,
        corruption_checks: heap.corruption_checks,
        corruption_failures: heap.corruption_failures,
        corruption_detections: heap.corruption_detections,
        metadata_ok: heap.metadata_ok(),
        sentinel_ok: sentinel_stands(heap, memory),
        allocation_canaries_ok: stats.allocation_canaries_ok,
        guard_low: heap.region.guard_low,
        guard_high: heap.region.guard_high,
    }
}

impl HeapBlock {
    pub fn empty() -> (r: Self)
        ensures
            r == model::no_block(),
    {
        HeapBlock {
            magic: 0,
            offset: 0,
            size: 0,
            payload_offset: 0,
            requested_size: 0,
            alignment: 0,
            allocated: false,
            active: false,
        }
    }

    pub fn free(offset: u64, size: u64) -> (r: Self)
        ensures
            r == model::free_block(offset as int, size as int),
    {
        HeapBlock {
            magic: model::BLOCK_MAGIC,
            offset,
            size,
            payload_offset: 0,
            requested_size: 0,
            alignment: 0,
            allocated: false,
            active: true,
        }
    }

    pub fn end(&self) -> (r: u64)
        ensures
            r == model::end_of(*self),
    {
        self.offset.saturating_add(self.size)
    }

    pub fn payload_end(&self) -> (r: u64)
        ensures
            r == model::payload_end_of(*self),
    {
        self.payload_offset.saturating_add(self.requested_size)
    }

    fn shape_ok(&self) -> (r: bool)
        ensures
            r == model::shape_ok(*self),
    {
        self.payload_offset >= self.offset.saturating_add(model::ALLOC_CANARY_BYTES)
            && self.payload_end().saturating_add(model::ALLOC_CANARY_BYTES) <= self.end()
            && self.alignment >= model::ALLOC_CANARY_BYTES && bits::is_power_of_two(self.alignment)
            && self.payload_offset % self.alignment == 0
    }
}

/// Whether two ranges share an element.
fn ranges_overlap(left_start: u64, left_end: u64, right_start: u64, right_end: u64) -> (r: bool)
    ensures
        r == (left_start < right_end && right_start < left_end),
{
    left_start < right_end && right_start < left_end
}

impl KernelHeap {
    /// A heap that is not in use yet.
    pub fn new(region: HeapRegion) -> (r: Self)
        requires
            region.valid(),
        ensures
            r@.inv(),
            r@.region == region,
            !r@.initialized,
            r@.mapped_pages == 0,
            r@.allocations == 0,
            r@.frees == 0,
            r@.failed_allocations == 0,
            r@.failed_frees == 0,
            r@.double_frees == 0,
            r@.invalid_frees == 0,
            r@.coalesces == 0,
            r@.high_watermark == 0,
            r@.corruption_checks == 0,
            r@.corruption_failures == 0,
            r@.corruption_detections == 0,
            r@.blocks == Seq::new(96, |i: int| model::no_block()),
            r@.recent_frees == Seq::new(16, |i: int| 0u64),
            r@.recent_free_index == 0,
    {
        KernelHeap {
            region,
            canary_head: HEAP_CANARY_HEAD,
            initialized: false,
            mapped_pages: 0,
            allocations: 0,
            frees: 0,
            failed_allocations: 0,
            failed_frees: 0,
            double_frees: 0,
            invalid_frees: 0,
            coalesces: 0,
            high_watermark: 0,
            corruption_checks: 0,
            corruption_failures: 0,
            corruption_detections: 0,
            blocks: [HeapBlock::empty(); model::MAX_BLOCKS],
            recent_frees: [0; model::RECENT_FREE_COUNT],
            recent_free_index: 0,
            canary_tail: HEAP_CANARY_TAIL,
        }
    }

    fn metadata_ok(&self, stats: HeapStats) -> (r: bool)
        requires
            stats.metadata_ok == model::records_ok(
                self@.blocks,
                self@.region.size,
                self@.initialized,
            ),
        ensures
            r == self@.metadata_ok(),
    {
        let pages: u64 = self.region.size / paging::PAGE_SIZE_4K;
        self.canary_head == HEAP_CANARY_HEAD && self.canary_tail == HEAP_CANARY_TAIL
            && self.mapped_pages <= pages && (!self.initialized || self.mapped_pages == pages)
            && stats.metadata_ok
    }

    /// Whether block `index` shares a byte with a later one.
    fn overlaps_later(&self, index: usize) -> (r: bool)
        requires
            index < 96,
        ensures
            r == exists|j: int|
                index < j < 96 && (#[trigger] self@.blocks[j]).active && model::overlap(
                    self@.blocks[index as int],
                    self@.blocks[j],
                ),
    {
        let block: HeapBlock = self.blocks[index];
        let mut other_index: usize = index + 1;
        while other_index < model::MAX_BLOCKS
            invariant
                index < other_index <= 96,
                block == self@.blocks[index as int],
                forall|j: int|
                    index < j < other_index && (#[trigger] self@.blocks[j]).active
                        ==> !model::overlap(block, self@.blocks[j]),
            decreases model::MAX_BLOCKS - other_index,
        {
            let other: HeapBlock = self.blocks[other_index];
            assert(other == self@.blocks[other_index as int]);
            if other.active && ranges_overlap(
                block.offset,
                block.end(),
                other.offset,
                other.end(),
            ) {
                return true;
            }
            other_index = other_index + 1;
        }
        false
    }

    /// Walks the records and sums up what they say.
    fn compute_stats(&self, memory: &[u8]) -> (r: HeapStats)
        requires
            model::canaries_readable(self@.blocks, memory@),
        ensures
            r == stats_of(self@, memory@),
    {
        let mut stats = HeapStats {
            allocated_bytes: 0,
            free_bytes: 0,
            largest_free_block: 0,
            active_allocations: 0,
            free_blocks: 0,
            metadata_blocks: 0,
            metadata_ok: true,
            allocation_canaries_ok: true,
        };
        let mut covered_bytes: u64 = 0;
        let ghost blocks = self@.blocks;
        let mut index: usize = 0;
        while index < model::MAX_BLOCKS
            invariant
                model::canaries_readable(self@.blocks, memory@),
                blocks == self@.blocks,
                blocks.len() == 96,
                index <= 96,
                stats.allocated_bytes == bits::sat(
                    model::sum_of(blocks.take(index as int), model::requested_bytes()),
                ),
                stats.free_bytes == bits::sat(
                    model::sum_of(blocks.take(index as int), model::free_bytes()),
                ),
                covered_bytes == bits::sat(
                    model::sum_of(blocks.take(index as int), model::taken_bytes()),
                ),
                stats.largest_free_block == model::largest_free(blocks.take(index as int)),
                stats.active_allocations == model::sum_of(
                    blocks.take(index as int),
                    model::one_if_live(),
                ),
                stats.free_blocks == model::sum_of(
                    blocks.take(index as int),
                    model::one_if_free(),
                ),
                stats.metadata_blocks == model::sum_of(
                    blocks.take(index as int),
                    model::one_if_active(),
                ),
                stats.active_allocations <= index,
                stats.free_blocks <= index,
                stats.metadata_blocks <= index,
                stats.metadata_ok == self.records_ok_upto(index as int),
                stats.allocation_canaries_ok == self.canaries_ok_upto(memory@, index as int),
            decreases model::MAX_BLOCKS - index,
        {
            let block: HeapBlock = self.blocks[index];
            let ghost before = index as int;
            assert(block == blocks[before]);
            assert(blocks.take(before + 1).drop_last() =~= blocks.take(before));
            assert(blocks.take(before + 1).last() == block);
            proof {
                model::lemma_sum_nonnegative(blocks.take(before), model::requested_bytes());
                model::lemma_sum_nonnegative(blocks.take(before), model::free_bytes());
                model::lemma_sum_nonnegative(blocks.take(before), model::taken_bytes());
                self.lemma_upto_step(memory@, before);
            }
            if block.active {
                stats.metadata_blocks = stats.metadata_blocks.saturating_add(1);
                covered_bytes = covered_bytes.saturating_add(block.size);
                if block.magic != model::BLOCK_MAGIC || block.size == 0 || block.offset
                    < model::HEAP_SENTINEL_BYTES || block.end() > self.region.size {
                    stats.metadata_ok = false;
                }
                if self.overlaps_later(index) {
                    stats.metadata_ok = false;
                }
                if block.allocated {
                    stats.active_allocations = stats.active_allocations.saturating_add(1);
                    stats.allocated_bytes =
                    stats.allocated_bytes.saturating_add(block.requested_size);
                    if !block.shape_ok() {
                        stats.metadata_ok = false;
                        stats.allocation_canaries_ok = false;
                    } else if !self.allocation_canaries_ok(memory, index) {
                        stats.allocation_canaries_ok = false;
                    }
                } else {
                    stats.free_blocks = stats.free_blocks.saturating_add(1);
                    stats.free_bytes = stats.free_bytes.saturating_add(block.size);
                    if block.size > stats.largest_free_block {
                        stats.largest_free_block = block.size;
                    }
                }
            }
            index = index + 1;
        }
        assert(blocks.take(96) =~= blocks);
        if self.initialized && covered_bytes != self.region.size.saturating_sub(
            model::HEAP_SENTINEL_BYTES,
        ) {
            stats.metadata_ok = false;
        }
        if stats.metadata_blocks > model::MAX_BLOCKS as u64
            || stats.allocated_bytes.saturating_add(stats.free_bytes) > self.region.size {
            stats.metadata_ok = false;
        }
        proof {
            self.lemma_upto_all(memory@);
        }
        stats
    }

    /// The checks on single blocks and on pairs, for the blocks before `count`.
    closed spec fn records_ok_upto(&self, count: int) -> bool {
        forall|i: int| 0 <= i < count ==> #[trigger] self.record_ok(i)
    }

    /// The checks on block `i` and on its pairs with later blocks.
    closed spec fn record_ok(&self, i: int) -> bool {
        let blocks = self@.blocks;
        blocks[i].active ==> {
            &&& model::in_heap(blocks[i], self@.region.size)
            &&& blocks[i].allocated ==> model::shape_ok(blocks[i])
            &&& forall|j: int|
                i < j < 96 && (#[trigger] blocks[j]).active ==> !model::overlap(
                    blocks[i],
                    blocks[j],
                )
        }
    }

    /// The checks on canaries, for the blocks before `count`.
    closed spec fn canaries_ok_upto(&self, memory: Seq<u8>, count: int) -> bool {
        forall|i: int|
            0 <= i < count && model::is_live(#[trigger] self@.blocks[i]) ==> model::shape_ok(
                self@.blocks[i],
            ) && model::canaries_stand(self@.blocks[i], memory)
    }

    proof fn lemma_upto_step(&self, memory: Seq<u8>, count: int)
        requires
            0 <= count < 96,
        ensures
            self.records_ok_upto(count + 1) == (self.records_ok_upto(count) && self.record_ok(
                count,
            )),
            self.canaries_ok_upto(memory, count + 1) == (self.canaries_ok_upto(memory, count) && (
            model::is_live(self@.blocks[count]) ==> model::shape_ok(self@.blocks[count])
                && model::canaries_stand(self@.blocks[count], memory))),
    {
        if self.records_ok_upto(count) && self.record_ok(count) {
            assert forall|i: int| 0 <= i < count + 1 implies #[trigger] self.record_ok(i) by {}
        }
        if self.records_ok_upto(count + 1) {
            assert(self.record_ok(count));
        }
        if self.canaries_ok_upto(memory, count + 1) {
            assert(model::is_live(self@.blocks[count]) ==> model::shape_ok(self@.blocks[count])
                && model::canaries_stand(self@.blocks[count], memory));
        }
    }

    proof fn lemma_upto_all(&self, memory: Seq<u8>)
        ensures
            self.canaries_ok_upto(memory, 96) == model::canaries_ok(self@.blocks, memory),
            ({
                let blocks = self@.blocks;
                &&& model::records_ok(blocks, self@.region.size, self@.initialized) == {
                    &&& self.records_ok_upto(96)
                    &&& self@.initialized ==> bits::sat(
                        model::sum_of(blocks, model::taken_bytes()),
                    ) == bits::max_of(self@.region.size - 64, 0)
                    &&& bits::sat(
                        bits::sat(model::sum_of(blocks, model::requested_bytes())) + bits::sat(
                            model::sum_of(blocks, model::free_bytes()),
                        ),
                    ) <= self@.region.size
                }
            }),
    {
        let blocks = self@.blocks;
        if self.records_ok_upto(96) {
            assert forall|i: int| 0 <= i < 96 && (#[trigger] blocks[i]).active implies {
                model::in_heap(blocks[i], self@.region.size) && (blocks[i].allocated
                    ==> model::shape_ok(blocks[i]))
            } by {
                assert(self.record_ok(i));
            }
            assert forall|i: int, j: int|
                0 <= i < j < 96 && (#[trigger] blocks[i]).active && (
                #[trigger] blocks[j]).active implies !model::overlap(blocks[i], blocks[j]) by {
                assert(self.record_ok(i));
            }
        }
        if model::records_ok(blocks, self@.region.size, self@.initialized) {
            assert forall|i: int| 0 <= i < 96 implies #[trigger] self.record_ok(i) by {}
        }
    }

    /// Whether the canaries of block `index` stand.
    fn allocation_canaries_ok(&self, memory: &[u8], index: usize) -> (r: bool)
        requires
            index < 96,
            model::is_live(self@.blocks[index as int]) ==> self@.blocks[index as int].payload_offset
                >= 8 && model::payload_end_of(self@.blocks[index as int]) + 8 <= memory@.len(),
        ensures
            r == (model::is_live(self@.blocks[index as int]) && model::canaries_stand(
                self@.blocks[index as int],
                memory@,
            )),
    {
        let block: HeapBlock = self.blocks[index];
        let length: usize = memory.len();
        if !block.active || !block.allocated {
            return false;
        }
        bytes::read_u64(memory, (block.payload_offset - model::ALLOC_CANARY_BYTES) as usize)
            == model::ALLOC_CANARY_HEAD && bytes::read_u64(memory, block.payload_end() as usize)
            == model::ALLOC_CANARY_TAIL
    }

    /// Puts the canaries of block `index` into memory.
    fn write_allocation_canaries(&self, memory: &mut [u8], index: usize)
        requires
            index < 96,
            self@.blocks[index as int].payload_offset >= 8,
            model::payload_end_of(self@.blocks[index as int]) + 8 <= old(memory)@.len(),
        ensures
            final(memory)@ == model::with_canaries(old(memory)@, self@.blocks[index as int]),
    {
        let block: HeapBlock = self.blocks[index];
        let length: usize = memory.len();
        bytes::write_u64(
            memory,
            (block.payload_offset - model::ALLOC_CANARY_BYTES) as usize,
            model::ALLOC_CANARY_HEAD,
        );
        bytes::write_u64(memory, block.payload_end() as usize, model::ALLOC_CANARY_TAIL);
    }

    /// The block in use that `address` belongs to.
    fn find_allocated_block(&self, address: u64) -> (r: Option<usize>)
        ensures
            match self@.find_address(address) {
                Some(index) => r == Some(index as usize) && 0 <= index < 96 && model::is_live(
                    self@.blocks[index],
                ),
                None => r is None,
            },
    {
        if address < self.region.base {
            return None;
        }
        let offset: u64 = address - self.region.base;
        let ghost wanted = model::live_at(offset as int);
        let mut index: usize = 0;
        while index < model::MAX_BLOCKS
            invariant
                index <= 96,
                self@.blocks.len() == 96,
                wanted == model::live_at(offset as int),
                model::index_where(self@.blocks, wanted, 0) == model::index_where(
                    self@.blocks,
                    wanted,
                    index as int,
                ),
                offset == address - self@.region.base,
                address >= self@.region.base,
            decreases model::MAX_BLOCKS - index,
        {
            let block: HeapBlock = self.blocks[index];
            assert(block == self@.blocks[index as int]);
            if block.active && block.allocated && block.payload_offset == offset {
                return Some(index);
            }
            index = index + 1;
        }
        None
    }

    /// A record that is not in use.
    fn free_metadata_slot(&self) -> (r: Option<usize>)
        ensures
            match model::index_where(self@.blocks, model::unused(), 0) {
                Some(index) => r == Some(index as usize) && 0 <= index < 96,
                None => r is None,
            },
    {
        let ghost wanted = model::unused();
        let mut index: usize = 0;
        while index < model::MAX_BLOCKS
            invariant
                index <= 96,
                self@.blocks.len() == 96,
                wanted == model::unused(),
                model::index_where(self@.blocks, wanted, 0) == model::index_where(
                    self@.blocks,
                    wanted,
                    index as int,
                ),
            decreases model::MAX_BLOCKS - index,
        {
            assert(self.blocks[index as int] == self@.blocks[index as int]);
            if !self.blocks[index].active {
                return Some(index);
            }
            index = index + 1;
        }
        None
    }
}

impl KernelHeap {
    /// Gives out `size` bytes at an address that is a multiple of `align`.
    pub(crate) fn allocate(&mut self, memory: &mut [u8], size: u64, align: u64) -> (r: Option<u64>)
        requires
            old(self)@.readable(old(memory)@),
        ensures
            r == old(self)@.alloc_result(size, align),
            final(self)@ == old(self)@.alloc_model(size, align),
            final(memory)@ == old(self)@.alloc_memory(old(memory)@, size, align),
            final(memory)@.len() == old(memory)@.len(),
            old(self)@.inv() ==> final(self)@.inv(),
    {
        let ghost before = self@;
        proof {
            if before.inv() {
                heap_proofs::lemma_alloc_inv(before, size, align);
            }
            bits::lemma_small_pow2();
        }
        if !self.initialized || !self.metadata_ok(self.compute_stats(memory)) || size == 0 {
            self.failed_allocations = self.failed_allocations.saturating_add(1);
            assert(self@ =~= before.alloc_model(size, align));
            return None;
        }
        if align == 0 || !bits::is_power_of_two(align) || align > model::MAX_ALIGNMENT {
            self.failed_allocations = self.failed_allocations.saturating_add(1);
            assert(!model::alignment_ok(align)) by {
                if align == 0 && bits::is_pow2(0) {
                    bits::lemma_is_pow2_pos(0);
                }
            }
            assert(self@ =~= before.alloc_model(size, align));
            return None;
        }
        let effective_align: u64 = if align > model::ALLOC_CANARY_BYTES {
            align
        } else {
            model::ALLOC_CANARY_BYTES
        };
        let ghost wanted = model::fitting(size, model::effective(align));
        let mut index: usize = 0;
        while index < model::MAX_BLOCKS
            invariant
                index <= 96,
                self@ == before,
                before.readable(memory@),
                before.initialized,
                before.metadata_ok(),
                memory@ == old(memory)@,
                old(self)@ == before,
                size != 0,
                model::alignment_ok(align),
                effective_align == model::effective(align),
                bits::is_pow2(effective_align as int),
                wanted == model::fitting(size, model::effective(align)),
                before.inv() ==> before.alloc_model(size, align).inv(),
                model::index_where(before.blocks, wanted, 0) == model::index_where(
                    before.blocks,
                    wanted,
                    index as int,
                ),
            decreases model::MAX_BLOCKS - index,
        {
            let block: HeapBlock = self.blocks[index];
            assert(block == before.blocks[index as int]);
            if block.active && !block.allocated {
                let payload_offset: u64 = bits::align_up(
                    block.offset.saturating_add(model::ALLOC_CANARY_BYTES),
                    effective_align,
                );
                let used_end: u64 = payload_offset.saturating_add(size).saturating_add(
                    model::ALLOC_CANARY_BYTES,
                );
                if used_end <= block.end() {
                    assert(before.can_alloc(size, align));
                    assert(model::first_fit(before.blocks, size, align) == Some(index as int));
                    self.take_block(memory, index, payload_offset, used_end, size, align);
                    return Some(self.region.base.saturating_add(payload_offset));
                }
            }
            index = index + 1;
        }
        self.failed_allocations = self.failed_allocations.saturating_add(1);
        assert(self@ =~= before.alloc_model(size, align));
        None
    }

    /// Gives out block `index`, splitting off what is left over.
    fn take_block(
        &mut self,
        memory: &mut [u8],
        index: usize,
        payload_offset: u64,
        used_end: u64,
        size: u64,
        align: u64,
    )
        requires
            old(self)@.readable(old(memory)@),
            old(self)@.can_alloc(size, align),
            index < 96,
            model::first_fit(old(self)@.blocks, size, align) == Some(index as int),
            payload_offset == model::payload_start(
                old(self)@.blocks[index as int],
                model::effective(align),
            ),
            used_end == model::used_end(
                old(self)@.blocks[index as int],
                size,
                model::effective(align),
            ),
        ensures
            final(self)@ == old(self)@.alloc_model(size, align),
            old(self)@.inv() ==> final(self)@.inv(),
            final(memory)@ == old(self)@.alloc_memory(old(memory)@, size, align),
            final(memory)@.len() == old(memory)@.len(),
    {
        let ghost before = self@;
        let block: HeapBlock = self.blocks[index];
        proof {
            assert(block == before.blocks[index as int]);
            if before.inv() {
                heap_proofs::lemma_alloc_inv(before, size, align);
            }
            heap_proofs::lemma_region_bound(before.region);
            heap_proofs::lemma_index_where(
                before.blocks,
                model::fitting(size, model::effective(align)),
                0,
            );
            heap_proofs::lemma_fit(block, size, align, before.region.size);
            heap_proofs::lemma_index_where(before.blocks, model::unused(), 0);
        }
        let remainder: u64 = block.end().saturating_sub(used_end);
        let slot: Option<usize> = if remainder >= model::MIN_SPLIT_BYTES {
            self.free_metadata_slot()
        } else {
            None
        };
        let alignment: u64 = if align > model::ALLOC_CANARY_BYTES {
            align
        } else {
            model::ALLOC_CANARY_BYTES
        };
        let mut taken = HeapBlock {
            magic: model::BLOCK_MAGIC,
            offset: block.offset,
            size: block.size,
            payload_offset,
            requested_size: size,
            alignment,
            allocated: true,
            active: true,
        };
        match slot {
            Some(slot) => {
                taken.size = used_end.saturating_sub(block.offset);
                self.blocks[index] = taken;
                self.blocks[slot] = HeapBlock::free(used_end, remainder);
            },
            None => {
                self.blocks[index] = taken;
            },
        }
        let ghost blocks = model::after_alloc(before.blocks, index as int, size, align);
        assert(self@.blocks =~= blocks);
        self.allocations = self.allocations.saturating_add(1);
        assert(self@ =~= (HeapModel {
            blocks,
            allocations: before.allocations.saturating_add(1),
            ..before
        }));
        proof {
            heap_proofs::lemma_alloc_readable(before, memory@, size, align);
        }
        self.write_allocation_canaries(memory, index);
        let used: u64 = self.compute_stats(memory).allocated_bytes;
        proof {
            model::lemma_sum_nonnegative(blocks, model::requested_bytes());
        }
        if used > self.high_watermark {
            self.high_watermark = used;
        }
        assert(self@ =~= before.alloc_model(size, align));
    }

    /// Takes back what was given out at `address`.
    pub(crate) fn free(&mut self, memory: &[u8], address: u64) -> (r: Result<(), FreeError>)
        requires
            old(self)@.inv(),
            old(self)@.backed_by(memory@),
        ensures
            r == old(self)@.free_result(memory@, address),
            final(self)@ == old(self)@.free_model(memory@, address),
            final(self)@.inv(),
    {
        let ghost before = self@;
        proof {
            heap_proofs::lemma_free_inv(before, memory@, address);
        }
        if !self.initialized {
            self.failed_frees = self.failed_frees.saturating_add(1);
            assert(self@ =~= before.free_model(memory@, address));
            return Err(FreeError::NotInitialized);
        }
        match self.find_allocated_block(address) {
            Some(index) => {
                assert(model::sound(self@.blocks[index as int], self@.region.size));
                if !self.allocation_canaries_ok(memory, index) {
                    self.failed_frees = self.failed_frees.saturating_add(1);
                    self.corruption_detections = self.corruption_detections.saturating_add(1);
                    assert(self@ =~= before.free_model(memory@, address));
                    return Err(FreeError::Corruption);
                }
                self.blocks[index].allocated = false;
                self.blocks[index].payload_offset = 0;
                self.blocks[index].requested_size = 0;
                self.blocks[index].alignment = 0;
                assert(self@.blocks =~= before.blocks_after_free(index as int));
                self.frees = self.frees.saturating_add(1);
                self.add_recent_free(address);
                self.coalesce_free_blocks();
                assert(self@ =~= before.free_model(memory@, address));
                return Ok(());
            },
            None => {},
        }
        self.failed_frees = self.failed_frees.saturating_add(1);
        if self.was_recently_freed(address) {
            self.double_frees = self.double_frees.saturating_add(1);
            assert(self@ =~= before.free_model(memory@, address));
            return Err(FreeError::DoubleFree);
        }
        self.invalid_frees = self.invalid_frees.saturating_add(1);
        assert(self@ =~= before.free_model(memory@, address));
        Err(FreeError::InvalidPointer)
    }

    fn add_recent_free(&mut self, address: u64)
        requires
            0 <= old(self)@.recent_free_index < 16,
        ensures
            final(self)@ == (HeapModel {
                recent_frees: old(self)@.recent_frees.update(
                    old(self)@.recent_free_index,
                    address,
                ),
                recent_free_index: (old(self)@.recent_free_index + 1) % 16,
                ..old(self)@
            }),
    {
        let slot: usize = self.recent_free_index;
        self.recent_frees[slot] = address;
        self.recent_free_index = (slot + 1) % model::RECENT_FREE_COUNT;
    }

    fn was_recently_freed(&self, address: u64) -> (r: bool)
        ensures
            r == self@.recently_freed(address),
    {
        if address == 0 {
            return false;
        }
        let mut index: usize = 0;
        while index < model::RECENT_FREE_COUNT
            invariant
                index <= 16,
                address != 0,
                forall|i: int| 0 <= i < index ==> self@.recent_frees[i] != address,
            decreases model::RECENT_FREE_COUNT - index,
        {
            if self.recent_frees[index] == address {
                assert(self@.recent_frees[index as int] == address);
                return true;
            }
            index = index + 1;
        }
        false
    }

    /// The first block from the start that touches block `left`.
    fn find_touching(&self, left: usize) -> (r: Option<usize>)
        requires
            left < 96,
        ensures
            match model::touching_from(self@.blocks, left as int, 0) {
                Some(right) => r == Some(right as usize) && 0 <= right < 96,
                None => r is None,
            },
    {
        let first: HeapBlock = self.blocks[left];
        if !first.active || first.allocated {
            proof {
                model::lemma_touching_from(self@.blocks, left as int, 0);
            }
            return None;
        }
        let mut right: usize = 0;
        while right < model::MAX_BLOCKS
            invariant
                left < 96,
                right <= 96,
                first == self@.blocks[left as int],
                model::is_free(first),
                self@.blocks.len() == 96,
                model::touching_from(self@.blocks, left as int, 0) == model::touching_from(
                    self@.blocks,
                    left as int,
                    right as int,
                ),
            decreases model::MAX_BLOCKS - right,
        {
            let second: HeapBlock = self.blocks[right];
            assert(second == self@.blocks[right as int]);
            if left != right && second.active && !second.allocated && (first.end()
                == second.offset || second.end() == first.offset) {
                return Some(right);
            }
            right = right + 1;
        }
        None
    }

    /// The first pair of free blocks that touch.
    fn find_touching_pair(&self) -> (r: Option<(usize, usize)>)
        ensures
            match model::pair_from(self@.blocks, 0) {
                Some((left, right)) => r == Some((left as usize, right as usize)) && 0 <= left < 96
                    && 0 <= right < 96,
                None => r is None,
            },
    {
        let mut left: usize = 0;
        while left < model::MAX_BLOCKS
            invariant
                left <= 96,
                self@.blocks.len() == 96,
                model::pair_from(self@.blocks, 0) == model::pair_from(self@.blocks, left as int),
            decreases model::MAX_BLOCKS - left,
        {
            match self.find_touching(left) {
                Some(right) => {
                    return Some((left, right));
                },
                None => {},
            }
            left = left + 1;
        }
        None
    }

    /// Joins free blocks that touch until none do.
    fn coalesce_free_blocks(&mut self)
        ensures
            final(self)@ == (HeapModel {
                blocks: model::coalesced(old(self)@.blocks),
                coalesces: bits::sat(
                    old(self)@.coalesces + (model::sum_of(
                        old(self)@.blocks,
                        model::one_if_active(),
                    ) - model::sum_of(
                        model::coalesced(old(self)@.blocks),
                        model::one_if_active(),
                    )),
                ) as u64,
                ..old(self)@
            }),
    {
        let ghost before = self@;
        let mut changed: bool = true;
        while changed
            invariant
                self@.blocks.len() == 96,
                self@ == (HeapModel { blocks: self@.blocks, coalesces: self@.coalesces, ..before }),
                model::coalesced(self@.blocks) == model::coalesced(before.blocks),
                model::sum_of(self@.blocks, model::one_if_active()) <= model::sum_of(
                    before.blocks,
                    model::one_if_active(),
                ),
                self@.coalesces == bits::sat(
                    before.coalesces + (model::sum_of(before.blocks, model::one_if_active())
                        - model::sum_of(self@.blocks, model::one_if_active())),
                ),
                !changed ==> model::pair_from(self@.blocks, 0) is None,
            decreases
                    model::sum_of(self@.blocks, model::one_if_active()) + if changed {
                        1int
                    } else {
                        0
                    },
        {
            changed = false;
            let ghost blocks = self@.blocks;
            proof {
                model::lemma_pair_from(blocks, 0);
                model::lemma_sum_nonnegative(blocks, model::one_if_active());
            }
            match self.find_touching_pair() {
                Some((left, right)) => {
                    let first: HeapBlock = self.blocks[left];
                    let second: HeapBlock = self.blocks[right];
                    proof {
                        assert(first == blocks[left as int] && second == blocks[right as int]);
                        model::lemma_merge_counts(blocks, left as int, right as int);
                    }
                    let mut whole: HeapBlock = first;
                    if first.end() != second.offset {
                        whole.offset = second.offset;
                    }
                    whole.size = first.size.saturating_add(second.size);
                    self.blocks[left] = whole;
                    self.blocks[right] = HeapBlock::empty();
                    assert(whole == model::joined(first, second));
                    assert(self@.blocks =~= model::merge(blocks, left as int, right as int));
                    self.coalesces = self.coalesces.saturating_add(1);
                    changed = true;
                },
                None => {},
            }
        }
    }
}

/// How many of the results, from `from` on and below `limit`, come before the first failure.
pub open spec fn mapped_before_failure(
    results: Seq<Result<u64, paging::MapError>>,
    limit: int,
    from: int,
) -> int
    decreases limit - from,
{
    if from >= limit || from >= results.len() || results[from] is Err {
        from
    } else {
        mapped_before_failure(results, limit, from + 1)
    }
}

/// The blocks of a heap that has just been taken into use: all of it free.
pub open spec fn fresh_blocks(region: HeapRegion) -> Seq<HeapBlock> {
    Seq::new(96, |i: int| model::no_block()).update(0, model::free_block(64, region.size - 64))
}

/// The heap after its pages have been mapped with these `results`.
pub open spec fn init_model(
    heap: HeapModel,
    results: Seq<Result<u64, paging::MapError>>,
) -> HeapModel {
    let mapped = mapped_before_failure(results, heap.region.pages(), 0);
    if heap.initialized {
        heap
    } else if mapped != heap.region.pages() {
        HeapModel { mapped_pages: mapped as u64, ..heap }
    } else {
        HeapModel {
            mapped_pages: mapped as u64,
            initialized: true,
            blocks: fresh_blocks(heap.region),
            recent_frees: Seq::new(16, |i: int| 0u64),
            recent_free_index: 0,
            high_watermark: 0,
            ..heap
        }
    }
}

/// The region after the heap has been taken into use, or after the attempt.
pub open spec fn init_memory(
    heap: HeapModel,
    memory: Seq<u8>,
    results: Seq<Result<u64, paging::MapError>>,
) -> Seq<u8> {
    if !heap.initialized && init_model(heap, results).initialized {
        bytes::overwrite(memory, 0, sentinel())
    } else {
        memory
    }
}

/// The heap after a corruption check that found `ok`.
pub open spec fn checked_model(heap: HeapModel, ok: bool) -> HeapModel {
    HeapModel {
        corruption_checks: heap.corruption_checks.saturating_add(1),
        corruption_failures: if ok {
            heap.corruption_failures
        } else {
            heap.corruption_failures.saturating_add(1)
        },
        ..heap
    }
}

/// Records, sentinel and canaries are all as they should be.
pub open spec fn healthy(heap: HeapModel, memory: Seq<u8>) -> bool {
    &&& heap.metadata_ok()
    &&& sentinel_stands(heap, memory)
    &&& model::canaries_ok(heap.blocks, memory)
}

pub proof fn lemma_fresh(region: HeapRegion)
    requires
        region.valid(),
    ensures
        model::tiled(fresh_blocks(region), region.size),
        model::settled(fresh_blocks(region)),
{
    let none = Seq::new(96, |i: int| model::no_block());
    heap_proofs::lemma_sum_inactive(none, model::taken_bytes());
    model::lemma_sum_update(
        none,
        0,
        model::free_block(64, region.size - 64),
        model::taken_bytes(),
    );
}

proof fn lemma_mapped_bound(
    results: Seq<Result<u64, paging::MapError>>,
    limit: int,
    from: int,
)
    requires
        0 <= from <= limit,
    ensures
        from <= mapped_before_failure(results, limit, from) <= limit,
    decreases limit - from,
{
    if from < limit && from < results.len() && results[from] is Ok {
        lemma_mapped_bound(results, limit, from + 1);
    }
}

impl KernelHeap {
    /// The address that the heap's region starts at.
    pub(crate) fn base(&self) -> (r: u64)
        ensures
            r == self@.region.base,
    {
        self.region.base
    }

    /// The address of page `page` of the region.
    pub fn page_address(&self, page: u64) -> (r: u64)
        requires
            self@.inv(),
            page < self@.region.pages(),
        ensures
            r == self@.region.base + page * 4096,
    {
        self.region.base + page * paging::PAGE_SIZE_4K
    }

    fn write_sentinel(&self, memory: &mut [u8])
        requires
            old(memory)@.len() >= 64,
        ensures
            final(memory)@ == bytes::overwrite(old(memory)@, 0, sentinel()),
    {
        let ghost before = memory@;
        let mut index: usize = 0;
        while index < model::HEAP_SENTINEL_BYTES as usize
            invariant
                index <= 64,
                memory@.len() == before.len(),
                before.len() >= 64,
                forall|i: int|
                    0 <= i < before.len() ==> #[trigger] memory@[i] == if i < index {
                        sentinel_byte(i)
                    } else {
                        before[i]
                    },
            decreases 64 - index,
        {
            memory[index] = 0x5au8 ^ ((index * 17) % 256) as u8;
            index = index + 1;
        }
        assert(memory@ =~= bytes::overwrite(before, 0, sentinel()));
    }

    fn sentinel_ok(&self, memory: &[u8]) -> (r: bool)
        requires
            self@.region.valid(),
            self@.backed_by(memory@),
        ensures
            r == sentinel_stands(self@, memory@),
    {
        if !self.initialized || self.mapped_pages != self.region.size / paging::PAGE_SIZE_4K {
            return false;
        }
        proof {
            heap_proofs::lemma_region_bound(self@.region);
        }
        let mut index: usize = 0;
        while index < model::HEAP_SENTINEL_BYTES as usize
            invariant
                index <= 64,
                memory@.len() >= 64,
                forall|i: int| 0 <= i < index ==> memory@[i] == sentinel_byte(i),
            decreases 64 - index,
        {
            if memory[index] != 0x5au8 ^ ((index * 17) % 256) as u8 {
                assert(memory@.take(64)[index as int] != sentinel()[index as int]);
                return false;
            }
            index = index + 1;
        }
        assert(memory@.take(64) =~= sentinel());
        true
    }

    fn reset_allocator(&mut self, memory: &mut [u8])
        requires
            old(self)@.region.valid(),
            old(memory)@.len() == old(self)@.region.size,
        ensures
            final(self)@ == (HeapModel {
                blocks: fresh_blocks(old(self)@.region),
                recent_frees: Seq::new(16, |i: int| 0u64),
                recent_free_index: 0,
                high_watermark: 0,
                ..old(self)@
            }),
            final(memory)@ == bytes::overwrite(old(memory)@, 0, sentinel()),
    {
        proof {
            heap_proofs::lemma_region_bound(self@.region);
        }
        let mut blocks: [HeapBlock; model::MAX_BLOCKS] = [HeapBlock::empty(); model::MAX_BLOCKS];
        blocks[0] = HeapBlock::free(
            model::HEAP_SENTINEL_BYTES,
            self.region.size.saturating_sub(model::HEAP_SENTINEL_BYTES),
        );
        assert(blocks@ =~= fresh_blocks(self@.region));
        self.blocks = blocks;
        self.recent_frees = [0; model::RECENT_FREE_COUNT];
        assert(self.recent_frees@ =~= Seq::new(16, |i: int| 0u64));
        self.recent_free_index = 0;
        self.high_watermark = 0;
        self.write_sentinel(memory);
    }

    /// What the heap reports of itself.
    pub(crate) fn snapshot(&self, memory: &[u8]) -> (r: Snapshot)
        requires
            self@.readable(memory@),
        ensures
            r == report_of(self@, memory@),
    {
        let stats: HeapStats = self.compute_stats(memory);
        Snapshot {
            initialized: self.initialized,
            base: self.region.base,
            size: self.region.size,
            used: stats.allocated_bytes,
            remaining: stats.free_bytes,
            mapped_pages: self.mapped_pages,
            allocations: self.allocations,
            frees: self.frees,
            failed_allocations: self.failed_allocations,
            failed_frees: self.failed_frees,
            double_frees: self.double_frees,
            invalid_frees: self.invalid_frees,
            coalesces: self.coalesces,
            active_allocations: stats.active_allocations,
            free_blocks: stats.free_blocks,
            metadata_blocks: stats.metadata_blocks,
            metadata_capacity: model::MAX_BLOCKS as u64,
            allocated_bytes: stats.allocated_bytes,
            free_bytes: stats.free_bytes,
            largest_free_block: stats.largest_free_block,
            high_watermark: self.high_watermark,
            corruption_checks: self.corruption_checks,
            corruption_failures: self.corruption_failures,
            corruption_detections: self.corruption_detections,
            metadata_ok: self.metadata_ok(stats),
            sentinel_ok: self.sentinel_ok(memory),
            allocation_canaries_ok: stats.allocation_canaries_ok,
            guard_low: self.region.guard_low,
            guard_high: self.region.guard_high,
        }
    }

    /// Checks records, sentinel and canaries; `guards_ok` says whether the guard pages hold.
    pub(crate) fn corruption_check(&mut self, memory: &[u8], guards_ok: bool) -> (r: bool)
        requires
            old(self)@.readable(memory@),
        ensures
            r == (healthy(old(self)@, memory@) && guards_ok),
            final(self)@ == checked_model(old(self)@, r),
            old(self)@.inv() ==> final(self)@.inv(),
    {
        self.corruption_checks = self.corruption_checks.saturating_add(1);
        let stats: HeapStats = self.compute_stats(memory);
        let ok: bool = self.metadata_ok(stats) && self.sentinel_ok(memory)
            && stats.allocation_canaries_ok && guards_ok;
        if !ok {
            self.corruption_failures = self.corruption_failures.saturating_add(1);
        }
        ok
    }

    /// Puts the canaries of what was given out at `address` back into place.
    pub(crate) fn repair_canaries_for(&self, memory: &mut [u8], address: u64) -> (r: bool)
        requires
            self@.inv(),
            self@.backed_by(old(memory)@),
        ensures
            r == (self@.find_address(address) is Some),
            final(memory)@ == match self@.find_address(address) {
                Some(index) => model::with_canaries(old(memory)@, self@.blocks[index]),
                None => old(memory)@,
            },
    {
        match self.find_allocated_block(address) {
            Some(index) => {
                assert(model::sound(self@.blocks[index as int], self@.region.size));
                self.write_allocation_canaries(memory, index);
                true
            },
            None => false,
        }
    }

    /// Overwrites the canary behind what was given out at `address`.
    pub(crate) fn corrupt_tail_canary_for(&self, memory: &mut [u8], address: u64) -> (r: bool)
        requires
            self@.inv(),
            self@.backed_by(old(memory)@),
        ensures
            r == (self@.find_address(address) is Some),
            final(memory)@ == match self@.find_address(address) {
                Some(index) => bytes::overwrite(
                    old(memory)@,
                    model::payload_end_of(self@.blocks[index]),
                    bytes::le_bytes(0, 8),
                ),
                None => old(memory)@,
            },
    {
        match self.find_allocated_block(address) {
            Some(index) => {
                let block: HeapBlock = self.blocks[index];
                let length: usize = memory.len();
                assert(model::sound(self@.blocks[index as int], self@.region.size));
                bytes::write_u64(memory, block.payload_end() as usize, 0);
                true
            },
            None => false,
        }
    }
}

/// Takes the heap into use. `results` are the results of mapping its pages, in order, up to
/// the first failure.
pub fn init(
    heap: &mut KernelHeap,
    memory: &mut [u8],
    results: &[Result<u64, paging::MapError>],
) -> (r: Snapshot)
    requires
        old(heap)@.inv(),
        old(heap)@.initialized || mapped_before_failure(
            results@,
            old(heap)@.region.pages(),
            0,
        ) == old(heap)@.region.pages() ==> old(memory)@.len() == old(heap)@.region.size,
    ensures
        final(heap)@.inv(),
        final(heap)@ == init_model(old(heap)@, results@),
        final(memory)@ == init_memory(old(heap)@, old(memory)@, results@),
        r == report_of(final(heap)@, final(memory)@),
{
    let ghost before = heap@;
    if heap.initialized {
        return heap.snapshot(memory);
    }
    proof {
        lemma_fresh(heap@.region);
        lemma_mapped_bound(results@, heap@.region.pages(), 0);
    }
    let pages: u64 = heap.region.size / paging::PAGE_SIZE_4K;
    let count: usize = results.len();
    let mut mapped_pages: u64 = 0;
    while mapped_pages < pages && mapped_pages < count as u64 && results[mapped_pages as usize].is_ok()
        invariant
            pages == before.region.pages(),
            mapped_pages <= pages,
            mapped_pages <= count,
            count == results@.len(),
            mapped_before_failure(results@, before.region.pages(), 0) == mapped_before_failure(
                results@,
                before.region.pages(),
                mapped_pages as int,
            ),
        decreases pages - mapped_pages,
    {
        mapped_pages = mapped_pages + 1;
    }
    heap.mapped_pages = mapped_pages;
    heap.initialized = mapped_pages == pages;
    if heap.initialized {
        heap.reset_allocator(memory);
    }
    assert(heap@ =~= init_model(before, results@));
    heap.snapshot(memory)
}

/// Gives out `size` bytes of the heap at an address that is a multiple of `align`.
pub fn allocate(heap: &mut KernelHeap, memory: &mut [u8], size: u64, align: u64) -> (r: Option<
    u64,
>)
    requires
        old(heap)@.readable(old(memory)@),
    ensures
        r == old(heap)@.alloc_result(size, align),
        final(heap)@ == old(heap)@.alloc_model(size, align),
        final(memory)@ == old(heap)@.alloc_memory(old(memory)@, size, align),
        final(memory)@.len() == old(memory)@.len(),
        old(heap)@.inv() ==> final(heap)@.inv(),
{
    heap.allocate(memory, size, align)
}

/// Takes back what the heap gave out at `address`.
pub fn free(heap: &mut KernelHeap, memory: &[u8], address: u64) -> (r: Result<(), FreeError>)
    requires
        old(heap)@.inv(),
        old(heap)@.backed_by(memory@),
    ensures
        r == old(heap)@.free_result(memory@, address),
        final(heap)@ == old(heap)@.free_model(memory@, address),
        final(heap)@.inv(),
{
    heap.free(memory, address)
}

/// Checks the heap; `guards_ok` says whether the guard pages beside it hold.
pub fn corruption_check(heap: &mut KernelHeap, memory: &[u8], guards_ok: bool) -> (r: bool)
    requires
        old(heap)@.readable(memory@),
    ensures
        r == (healthy(old(heap)@, memory@) && guards_ok),
        final(heap)@ == checked_model(old(heap)@, r),
        old(heap)@.inv() ==> final(heap)@.inv(),
{
    heap.corruption_check(memory, guards_ok)
}

/// What the heap reports of itself.
pub fn snapshot(heap: &KernelHeap, memory: &[u8]) -> (r: Snapshot)
    requires
        heap@.readable(memory@),
    ensures
        r == report_of(heap@, memory@),
{
    heap.snapshot(memory)
}

} // verus!
