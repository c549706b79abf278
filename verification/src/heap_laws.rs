//! What holds of the heap from one operation to the next.
use crate::{bits, bytes, heap, heap_proofs};
use crate::heap_model as model;
use crate::heap_model::{FreeError, HeapBlock, HeapModel};
use vstd::prelude::*;

verus! {

/// A heap together with the bytes of its region.
#[verifier::ext_equal]
pub struct HeapState {
    pub heap: HeapModel,
    pub memory: Seq<u8>,
}

/// Byte `index` of the test pattern grown from `seed`: the sum of the two, rotated by one bit.
pub open spec fn pattern_byte(seed: u8, index: int) -> u8 {
    let sum = (seed + index) % 256;
    ((sum * 2) % 256 + sum / 128) as u8
}

/// The first `size` bytes of the test pattern grown from `seed`.
pub open spec fn pattern(seed: u8, size: u64) -> Seq<u8> {
    Seq::new(size as nat, |i: int| pattern_byte(seed, i))
}

impl HeapState {
    /// A heap in use that keeps its invariant, over a region of the right size.
    pub open spec fn ok(self) -> bool {
        &&& self.heap.inv()
        &&& self.heap.initialized
        &&& self.heap.backed_by(self.memory)
    }

    /// The block that was given out at `address`.
    pub open spec fn block_at(self, address: u64) -> Option<HeapBlock> {
        match self.heap.find_address(address) {
            Some(index) => Some(self.heap.blocks[index]),
            None => None,
        }
    }

    /// `address` was given out, and the canaries around it stand.
    pub open spec fn intact(self, address: u64) -> bool {
        self.block_at(address) is Some && model::canaries_stand(
            self.block_at(address)->0,
            self.memory,
        )
    }

    /// All canaries stand.
    pub open spec fn all_intact(self) -> bool {
        model::canaries_ok(self.heap.blocks, self.memory)
    }

    /// The sentinel stands.
    pub open spec fn sentinel(self) -> bool {
        self.memory.take(64) == heap::sentinel()
    }

    /// How many blocks are in use.
    pub open spec fn live_count(self) -> int {
        model::sum_of(self.heap.blocks, model::one_if_live())
    }

    /// How many bytes were asked for in all.
    pub open spec fn live_bytes(self) -> int {
        model::sum_of(self.heap.blocks, model::requested_bytes())
    }

    /// The address that an allocation returns.
    pub open spec fn address(self, size: u64, align: u64) -> Option<u64> {
        self.heap.alloc_result(size, align)
    }

    /// After an allocation, or after the attempt.
    pub open spec fn allocate(self, size: u64, align: u64) -> HeapState {
        HeapState {
            heap: self.heap.alloc_model(size, align),
            memory: self.heap.alloc_memory(self.memory, size, align),
        }
    }

    /// What freeing `address` is answered.
    pub open spec fn answer(self, address: u64) -> Result<(), FreeError> {
        self.heap.free_result(self.memory, address)
    }

    /// After `address` has been freed, or after the attempt.
    pub open spec fn free(self, address: u64) -> HeapState {
        HeapState { heap: self.heap.free_model(self.memory, address), ..self }
    }

    /// After the pattern grown from `seed` has been written to `size` bytes at `address`.
    pub open spec fn fill(self, address: u64, size: u64, seed: u8) -> HeapState {
        HeapState {
            memory: bytes::overwrite(
                self.memory,
                address - self.heap.region.base,
                pattern(seed, size),
            ),
            ..self
        }
    }

    /// After the canary behind `address` has been overwritten.
    pub open spec fn corrupt(self, address: u64) -> HeapState {
        HeapState {
            memory: bytes::overwrite(
                self.memory,
                model::payload_end_of(self.block_at(address)->0),
                bytes::le_bytes(0, 8),
            ),
            ..self
        }
    }

    /// After the canaries around `address` have been put back.
    pub open spec fn repair(self, address: u64) -> HeapState {
        HeapState {
            memory: model::with_canaries(self.memory, self.block_at(address)->0),
            ..self
        }
    }
}

/// Blocks in use have payloads of their own: an index is found by its payload.
proof fn lemma_find(heap: HeapModel, index: int)
    requires
        heap.inv(),
        heap.initialized,
        0 <= index < 96,
        model::is_live(heap.blocks[index]),
    ensures
        heap.find(heap.blocks[index].payload_offset as int) == Some(index),
        heap.region.base + heap.blocks[index].payload_offset <= u64::MAX,
        heap.find_address((heap.region.base + heap.blocks[index].payload_offset) as u64) == Some(
            index,
        ),
{
    let offset = heap.blocks[index].payload_offset as int;
    heap_proofs::lemma_index_where(heap.blocks, model::live_at(offset), 0);
    assert(model::live_at(offset)(heap.blocks[index]));
    assert(model::sound(heap.blocks[index], heap.region.size));
    let found = heap.find(offset)->0;
    if found != index {
        assert(model::sound(heap.blocks[found], heap.region.size));
        if found < index {
            assert(model::apart(heap.blocks[found], heap.blocks[index]));
        } else {
            assert(model::apart(heap.blocks[index], heap.blocks[found]));
        }
        assert(false);
    }
}

/// What is found at an address is a sound block in use.
pub proof fn lemma_block_at(state: HeapState, address: u64)
    requires
        state.ok(),
    ensures
        match state.heap.find_address(address) {
            Some(index) => {
                &&& 0 <= index < 96
                &&& state.heap.blocks[index] == state.block_at(address)->0
                &&& model::is_live(state.heap.blocks[index])
                &&& model::sound(state.heap.blocks[index], state.heap.region.size)
                &&& address == state.heap.region.base + state.heap.blocks[index].payload_offset
            },
            None => state.block_at(address) is None,
        },
{
    if address >= state.heap.region.base {
        heap_proofs::lemma_index_where(
            state.heap.blocks,
            model::live_at(address - state.heap.region.base),
            0,
        );
    }
}

/// All canaries stand exactly when those of every address given out do.
pub proof fn lemma_all_intact(state: HeapState)
    requires
        state.ok(),
    ensures
        state.all_intact() <==> forall|address: u64|
            #![trigger state.block_at(address)]
            state.block_at(address) is Some ==> state.intact(address),
{
    let blocks = state.heap.blocks;
    if state.all_intact() {
        assert forall|address: u64|
            #![trigger state.block_at(address)]
            state.block_at(address) is Some implies state.intact(address) by {
            lemma_block_at(state, address);
            let index = state.heap.find_address(address)->0;
            assert(model::is_live(blocks[index]));
        }
    }
    if forall|address: u64|
        #![trigger state.block_at(address)]
        state.block_at(address) is Some ==> state.intact(address) {
        assert forall|i: int| 0 <= i < blocks.len() && model::is_live(
            #[trigger] blocks[i],
        ) implies model::shape_ok(blocks[i]) && model::canaries_stand(blocks[i], state.memory) by {
            lemma_find(state.heap, i);
            heap_proofs::lemma_sound(blocks[i], state.heap.region.size);
            let address = (state.heap.region.base + blocks[i].payload_offset) as u64;
            assert(state.block_at(address) == Some(blocks[i]));
            assert(state.intact(address));
        }
    }
}

/// A write inside one block leaves the canaries of the others standing, or not, as they were.
proof fn lemma_canaries_frame(
    block: HeapBlock,
    other: HeapBlock,
    memory: Seq<u8>,
    at: int,
    data: Seq<u8>,
    heap_size: u64,
)
    requires
        model::sound(block, heap_size),
        model::sound(other, heap_size),
        block.allocated,
        other.allocated,
        model::apart(block, other),
        memory.len() == heap_size,
        block.offset <= at,
        at + data.len() <= block.offset + block.size,
    ensures
        model::canaries_stand(other, bytes::overwrite(memory, at, data)) == model::canaries_stand(
            other,
            memory,
        ),
        bytes::overwrite(memory, at, data).take(64) == memory.take(64),
{
    heap_proofs::lemma_sound(other, heap_size);
    bytes::lemma_le_at_overwrite_other(memory, at, data, other.payload_offset - 8, 8);
    bytes::lemma_le_at_overwrite_other(memory, at, data, model::payload_end_of(other), 8);
    assert(bytes::overwrite(memory, at, data).take(64) =~= memory.take(64));
}

/// Canaries that were just written stand, and no others are touched by it.
pub proof fn lemma_with_canaries(block: HeapBlock, memory: Seq<u8>, heap_size: u64)
    requires
        model::sound(block, heap_size),
        block.allocated,
        memory.len() == heap_size,
    ensures
        model::canaries_stand(block, model::with_canaries(memory, block)),
        model::with_canaries(memory, block).len() == memory.len(),
        model::with_canaries(memory, block).take(64) == memory.take(64),
        forall|other: HeapBlock|
            #![trigger model::canaries_stand(other, memory)]
            #![trigger model::canaries_stand(other, model::with_canaries(memory, block))]
            model::sound(other, heap_size) && other.allocated && model::apart(block, other)
                ==> model::canaries_stand(other, model::with_canaries(memory, block))
                == model::canaries_stand(other, memory),
{
    heap_proofs::lemma_sound(block, heap_size);
    bytes::lemma_byte_ranges();
    let head = bytes::le_bytes(model::ALLOC_CANARY_HEAD as nat, 8);
    let tail = bytes::le_bytes(model::ALLOC_CANARY_TAIL as nat, 8);
    bytes::lemma_le_bytes_len(model::ALLOC_CANARY_HEAD as nat, 8);
    bytes::lemma_le_bytes_len(model::ALLOC_CANARY_TAIL as nat, 8);
    let start = block.payload_offset - 8;
    let end = model::payload_end_of(block);
    let half = bytes::overwrite(memory, start, head);
    bytes::lemma_le_at_overwrite_same(memory, start, model::ALLOC_CANARY_HEAD as nat, 8);
    bytes::lemma_le_at_overwrite_other(half, end, tail, start, 8);
    bytes::lemma_le_at_overwrite_same(half, end, model::ALLOC_CANARY_TAIL as nat, 8);
    assert(model::with_canaries(memory, block).take(64) =~= memory.take(64));
    assert forall|other: HeapBlock|
        #![trigger model::canaries_stand(other, memory)]
        #![trigger model::canaries_stand(other, model::with_canaries(memory, block))]
        model::sound(other, heap_size) && other.allocated && model::apart(
            block,
            other,
        ) implies model::canaries_stand(other, model::with_canaries(memory, block))
        == model::canaries_stand(other, memory) by {
        lemma_canaries_frame(block, other, memory, start, head, heap_size);
        lemma_canaries_frame(block, other, half, end, tail, heap_size);
    }
}

/// The same blocks with the same canaries are as intact on the whole.
pub proof fn lemma_same_intact(one: HeapState, two: HeapState)
    requires
        one.ok(),
        two.ok(),
        forall|address: u64|
            #![trigger one.block_at(address)]
            #![trigger two.block_at(address)]
            one.block_at(address) == two.block_at(address),
        forall|address: u64|
            #![trigger one.intact(address)]
            #![trigger two.intact(address)]
            one.intact(address) == two.intact(address),
    ensures
        one.all_intact() == two.all_intact(),
{
    lemma_all_intact(one);
    lemma_all_intact(two);
    if one.all_intact() {
        assert forall|address: u64|
            #![trigger two.block_at(address)]
            two.block_at(address) is Some implies two.intact(address) by {
            assert(one.block_at(address) is Some);
            assert(one.intact(address));
        }
    }
    if two.all_intact() {
        assert forall|address: u64|
            #![trigger one.block_at(address)]
            one.block_at(address) is Some implies one.intact(address) by {
            assert(two.block_at(address) is Some);
            assert(two.intact(address));
        }
    }
}

/// An allocation that succeeds gives out an address that is new, aligned, not zero, and backed
/// by `size` bytes of the region that no other allocation shares; whatever else was given out
/// stays given out, with the same canaries. An allocation that fails changes no block and no
/// byte.
pub proof fn law_alloc(state: HeapState, size: u64, align: u64)
    requires
        state.ok(),
    ensures
        ({
            let after = state.allocate(size, align);
            &&& after.ok()
            &&& after.heap.region == state.heap.region
            &&& after.sentinel() == state.sentinel()
            &&& after.all_intact() == state.all_intact()
            &&& after.memory.len() == state.memory.len()
            &&& forall|other: u64|
                #![trigger after.block_at(other)]
                #![trigger state.block_at(other)]
                Some(other) != state.address(size, align) ==> after.block_at(other)
                    == state.block_at(other)
            &&& forall|other: u64|
                #![trigger after.intact(other)]
                #![trigger state.intact(other)]
                Some(other) != state.address(size, align) ==> after.intact(other) == state.intact(
                    other,
                )
            &&& match state.address(size, align) {
                Some(address) => {
                    &&& state.block_at(address) is None
                    &&& after.block_at(address) is Some
                    &&& after.block_at(address)->0.requested_size == size
                    &&& after.intact(address)
                    &&& address % align == 0
                    &&& address != 0
                    &&& state.heap.region.base + 64 < address
                    &&& address + size <= state.heap.region.base + state.heap.region.size
                    &&& after.live_count() == state.live_count() + 1
                    &&& after.live_bytes() == state.live_bytes() + size
                },
                None => {
                    &&& after.memory == state.memory
                    &&& after.heap.blocks == state.heap.blocks
                    &&& after.live_count() == state.live_count()
                    &&& after.live_bytes() == state.live_bytes()
                },
            }
        }),
{
    let after = state.allocate(size, align);
    let heap_size = state.heap.region.size;
    let base = state.heap.region.base;
    heap_proofs::lemma_alloc_inv(state.heap, size, align);
    if state.heap.can_alloc(size, align) {
        heap_proofs::lemma_alloc_blocks(state.heap, size, align);
        let index = model::first_fit(state.heap.blocks, size, align)->0;
        let block = after.heap.blocks[index];
        let address = state.address(size, align)->0;
        assert(after.heap.blocks == model::after_alloc(state.heap.blocks, index, size, align));
        assert(address == base + block.payload_offset);
        lemma_with_canaries(block, state.memory, heap_size);
        lemma_find(after.heap, index);
        assert(address % align == 0) by {
            bits::lemma_is_pow2_pos(align as int);
            bits::lemma_small_pow2();
            bits::lemma_pow2_divides(align as int, 4096);
            heap_proofs::lemma_mod_divides(base as int, align as int, 4096);
            vstd::arithmetic::div_mod::lemma_mod_adds(
                base as int,
                block.payload_offset as int,
                align as int,
            );
        }
        assert forall|other: u64|
            #![trigger after.block_at(other)]
            #![trigger state.block_at(other)]
            other != address implies after.block_at(other) == state.block_at(other) by {
            if other >= base {
                heap_proofs::lemma_index_where_same(
                    state.heap.blocks,
                    after.heap.blocks,
                    model::live_at(other - base),
                    0,
                );
                lemma_block_at(state, other);
            }
        }
        assert(state.block_at(address) is None) by {
            lemma_block_at(state, address);
            if state.heap.find_address(address) is Some {
                let i = state.heap.find_address(address)->0;
                assert(after.heap.blocks[i] == state.heap.blocks[i]);
                assert(i != index);
                assert(model::apart(block, after.heap.blocks[i]));
                assert(false);
            }
        }
        assert forall|other: u64|
            #![trigger after.intact(other)]
            #![trigger state.intact(other)]
            other != address implies after.intact(other) == state.intact(other) by {
            assert(after.block_at(other) == state.block_at(other));
            lemma_block_at(after, other);
            if after.heap.find_address(other) is Some {
                let i = after.heap.find_address(other)->0;
                let there = after.heap.blocks[i];
                assert(i != index);
                assert(model::apart(block, there));
                assert(model::canaries_stand(there, model::with_canaries(state.memory, block))
                    == model::canaries_stand(there, state.memory));
            }
        }
        lemma_all_intact(state);
        lemma_all_intact(after);
        assert(after.all_intact() == state.all_intact()) by {
            if state.all_intact() {
                assert forall|other: u64|
                    #![trigger after.block_at(other)]
                    after.block_at(other) is Some implies after.intact(other) by {
                    if other != address {
                        assert(state.block_at(other) is Some);
                        assert(state.intact(other));
                    }
                }
            }
            if after.all_intact() {
                assert forall|other: u64|
                    #![trigger state.block_at(other)]
                    state.block_at(other) is Some implies state.intact(other) by {
                    assert(other != address);
                    assert(after.block_at(other) is Some);
                    assert(after.intact(other));
                }
            }
        }
    }
}

/// Writing inside what was given out touches no canary and no other block.
pub proof fn law_payload_is_free_to_use(state: HeapState, address: u64, at: u64, data: Seq<u8>)
    requires
        state.ok(),
        state.block_at(address) is Some,
        address <= at,
        at + data.len() <= address + state.block_at(address)->0.requested_size,
    ensures
        ({
            let after = HeapState {
                memory: bytes::overwrite(state.memory, at - state.heap.region.base, data),
                ..state
            };
            &&& after.ok()
            &&& after.sentinel() == state.sentinel()
            &&& after.all_intact() == state.all_intact()
            &&& forall|other: u64|
                #![trigger after.intact(other)]
                #![trigger state.intact(other)]
                after.intact(other) == state.intact(other)
        }),
{
    let base = state.heap.region.base;
    let after = HeapState {
        memory: bytes::overwrite(state.memory, at - base, data),
        ..state
    };
    let heap_size = state.heap.region.size;
    lemma_block_at(state, address);
    let index = state.heap.find_address(address)->0;
    let block = state.heap.blocks[index];
    heap_proofs::lemma_sound(block, heap_size);
    assert(after.memory.take(64) =~= state.memory.take(64));
    assert forall|other: u64|
        #![trigger after.intact(other)]
        #![trigger state.intact(other)]
        after.intact(other) == state.intact(other) by {
        lemma_block_at(state, other);
        if state.heap.find_address(other) is Some {
            let i = state.heap.find_address(other)->0;
            if i == index {
                bytes::lemma_le_at_overwrite_other(
                    state.memory,
                    at - base,
                    data,
                    block.payload_offset - 8,
                    8,
                );
                bytes::lemma_le_at_overwrite_other(
                    state.memory,
                    at - base,
                    data,
                    model::payload_end_of(block),
                    8,
                );
            } else {
                heap_proofs::lemma_apart_both(state.heap.blocks, index, i, heap_size);
                lemma_canaries_frame(
                    block,
                    state.heap.blocks[i],
                    state.memory,
                    at - base,
                    data,
                    heap_size,
                );
            }
        }
    }
    assert forall|other: u64|
        #![trigger after.block_at(other)]
        #![trigger state.block_at(other)]
        after.block_at(other) == state.block_at(other) by {}
    lemma_same_intact(state, after);
}

/// Freeing an address whose canaries stand succeeds and takes back exactly that address;
/// freeing it once more at once is then answered as a double free.
pub proof fn law_free(state: HeapState, address: u64)
    requires
        state.ok(),
        state.intact(address),
    ensures
        ({
            let after = state.free(address);
            &&& state.answer(address) is Ok
            &&& after.ok()
            &&& after.heap.region == state.heap.region
            &&& after.memory == state.memory
            &&& after.block_at(address) is None
            &&& after.heap.recently_freed(address)
            &&& after.answer(address) == Err::<(), FreeError>(FreeError::DoubleFree)
            &&& forall|other: u64|
                #![trigger after.block_at(other)]
                #![trigger state.block_at(other)]
                other != address ==> after.block_at(other) == state.block_at(other)
            &&& forall|other: u64|
                #![trigger after.intact(other)]
                #![trigger state.intact(other)]
                other != address ==> after.intact(other) == state.intact(other)
            &&& after.all_intact() == state.all_intact()
            &&& after.live_count() == state.live_count() - 1
            &&& after.live_bytes() == state.live_bytes() - state.block_at(
                address,
            )->0.requested_size
        }),
{
    let after = state.free(address);
    let base = state.heap.region.base;
    lemma_block_at(state, address);
    let index = state.heap.find_address(address)->0;
    let block = state.heap.blocks[index];
    heap_proofs::lemma_release(state.heap, index, address);
    assert(after.heap == state.heap.released(index, address));
    let without = state.heap.blocks.update(index, model::no_block());
    assert(heap_proofs::same_live(without, after.heap.blocks));
    assert(after.heap.recent_frees[state.heap.recent_free_index] == address);
    assert forall|other: u64|
        #![trigger after.block_at(other)]
        #![trigger state.block_at(other)]
        other != address implies after.block_at(other) == state.block_at(other) by {
        if other >= base {
            let wanted = model::live_at(other - base);
            assert forall|i: int| 0 <= i < 96 implies wanted(
                #[trigger] state.heap.blocks[i],
            ) == wanted(after.heap.blocks[i]) by {
                assert(model::is_live(without[i]) == model::is_live(after.heap.blocks[i]));
            }
            heap_proofs::lemma_index_where_same(
                state.heap.blocks,
                after.heap.blocks,
                wanted,
                0,
            );
            lemma_block_at(state, other);
            if state.heap.find_address(other) is Some {
                let i = state.heap.find_address(other)->0;
                assert(model::is_live(without[i]) == model::is_live(after.heap.blocks[i]));
            }
        }
    }
    assert(after.block_at(address) is None) by {
        lemma_block_at(after, address);
        if after.heap.find_address(address) is Some {
            let i = after.heap.find_address(address)->0;
            assert(model::is_live(without[i]) == model::is_live(after.heap.blocks[i]));
            assert(i != index);
            assert(state.heap.blocks[i] == after.heap.blocks[i]);
            lemma_find(state.heap, i);
            assert(false);
        }
    }
    lemma_all_intact(state);
    lemma_all_intact(after);
    assert(after.all_intact() == state.all_intact()) by {
        if state.all_intact() {
            assert forall|other: u64|
                #![trigger after.block_at(other)]
                after.block_at(other) is Some implies after.intact(other) by {
                assert(state.block_at(other) is Some);
                assert(state.intact(other));
            }
        }
        if after.all_intact() {
            assert forall|other: u64|
                #![trigger state.block_at(other)]
                state.block_at(other) is Some implies state.intact(other) by {
                if other != address {
                    assert(after.block_at(other) is Some);
                    assert(after.intact(other));
                }
            }
        }
    }
}

/// An address that was never given out, or was given back, cannot be freed: the blocks and the
/// region stay as they are.
pub proof fn law_bad_frees_change_nothing(state: HeapState, address: u64)
    requires
        state.ok(),
        !state.intact(address),
    ensures
        state.answer(address) is Err,
        state.free(address).ok(),
        state.free(address).memory == state.memory,
        state.free(address).heap.blocks == state.heap.blocks,
        state.free(address).heap.region == state.heap.region,
        state.free(address).heap.recent_frees == state.heap.recent_frees,
        state.block_at(address) is Some ==> state.answer(address) == Err::<(), FreeError>(
            FreeError::Corruption,
        ),
        state.block_at(address) is None && state.heap.recently_freed(address) ==> state.answer(
            address,
        ) == Err::<(), FreeError>(FreeError::DoubleFree),
        state.block_at(address) is None && !state.heap.recently_freed(address) ==> state.answer(
            address,
        ) == Err::<(), FreeError>(FreeError::InvalidPointer),
{
    lemma_block_at(state, address);
    heap_proofs::lemma_free_inv(state.heap, state.memory, address);
}

/// Damage to the canary behind an allocation is noticed when it is freed, and only there; once
/// repaired it can be freed again.
pub proof fn law_corruption_is_detected(state: HeapState, address: u64)
    requires
        state.ok(),
        state.block_at(address) is Some,
    ensures
        ({
            let damaged = state.corrupt(address);
            let mended = damaged.repair(address);
            &&& damaged.ok()
            &&& !damaged.intact(address)
            &&& damaged.answer(address) == Err::<(), FreeError>(FreeError::Corruption)
            &&& damaged.sentinel() == state.sentinel()
            &&& forall|other: u64|
                #![trigger damaged.intact(other)]
                #![trigger state.intact(other)]
                other != address ==> damaged.intact(other) == state.intact(other)
            &&& mended.ok()
            &&& mended.intact(address)
            &&& mended.answer(address) is Ok
            &&& mended.sentinel() == state.sentinel()
            &&& state.intact(address) ==> mended.all_intact() == state.all_intact()
            &&& forall|other: u64|
                #![trigger mended.intact(other)]
                #![trigger state.intact(other)]
                other != address ==> mended.intact(other) == state.intact(other)
        }),
{
    let damaged = state.corrupt(address);
    let mended = damaged.repair(address);
    let heap_size = state.heap.region.size;
    lemma_block_at(state, address);
    let index = state.heap.find_address(address)->0;
    let block = state.heap.blocks[index];
    heap_proofs::lemma_sound(block, heap_size);
    bytes::lemma_byte_ranges();
    bytes::lemma_le_bytes_len(0, 8);
    bytes::lemma_le_at_overwrite_same(state.memory, model::payload_end_of(block), 0, 8);
    assert(damaged.memory.take(64) =~= state.memory.take(64));
    lemma_with_canaries(block, damaged.memory, heap_size);
    assert forall|other: u64|
        #![trigger damaged.intact(other)]
        #![trigger state.intact(other)]
        other != address implies damaged.intact(other) == state.intact(other) && mended.intact(
        other,
    ) == state.intact(other) by {
        lemma_block_at(state, other);
        if state.heap.find_address(other) is Some {
            let i = state.heap.find_address(other)->0;
            let there = state.heap.blocks[i];
            heap_proofs::lemma_apart_both(state.heap.blocks, index, i, heap_size);
            lemma_canaries_frame(
                block,
                there,
                state.memory,
                model::payload_end_of(block),
                bytes::le_bytes(0, 8),
                heap_size,
            );
            assert(model::canaries_stand(there, model::with_canaries(damaged.memory, block))
                == model::canaries_stand(there, damaged.memory));
        }
    }
    assert forall|other: u64|
        #![trigger mended.intact(other)]
        #![trigger state.intact(other)]
        other != address implies mended.intact(other) == state.intact(other) by {
        assert(damaged.intact(other) == state.intact(other));
    }
    if state.intact(address) {
        assert forall|other: u64|
            #![trigger mended.block_at(other)]
            #![trigger state.block_at(other)]
            mended.block_at(other) == state.block_at(other) by {}
        lemma_same_intact(state, mended);
    }
}

/// The heap's records always pass its own checks, whatever is written to the region.
pub proof fn law_metadata_always_ok(state: HeapState)
    requires
        state.heap.inv(),
    ensures
        heap::report_of(state.heap, state.memory).metadata_ok,
        state.heap.initialized ==> heap::report_of(state.heap, state.memory).used as int
            + heap::report_of(state.heap, state.memory).remaining <= state.heap.region.size,
{
    heap_proofs::lemma_metadata_ok(state.heap);
    model::lemma_sum_nonnegative(state.heap.blocks, model::requested_bytes());
    model::lemma_sum_nonnegative(state.heap.blocks, model::free_bytes());
}

/// Two addresses that are given out at the same time share no byte of the region.
pub proof fn law_live_allocations_are_disjoint(state: HeapState, one: u64, two: u64)
    requires
        state.ok(),
        one != two,
        state.block_at(one) is Some,
        state.block_at(two) is Some,
    ensures
        one + state.block_at(one)->0.requested_size <= two || two + state.block_at(
            two,
        )->0.requested_size <= one,
{
    lemma_block_at(state, one);
    lemma_block_at(state, two);
    heap_proofs::lemma_apart_both(
        state.heap.blocks,
        state.heap.find_address(one)->0,
        state.heap.find_address(two)->0,
        state.heap.region.size,
    );
}

/// `large` is free and covers `small`.
pub open spec fn covers(large: HeapBlock, small: HeapBlock) -> bool {
    &&& model::is_free(large)
    &&& large.offset <= small.offset
    &&& small.offset + small.size <= large.offset + large.size
}

/// Joining free blocks leaves each of them inside a free block.
proof fn lemma_coalesced_covers(blocks: Seq<HeapBlock>, index: int, heap_size: u64)
    requires
        model::blocks_apart(blocks, heap_size),
        0 <= index < blocks.len(),
        model::is_free(blocks[index]),
    ensures
        exists|i: int|
            0 <= i < blocks.len() && covers(
                #[trigger] model::coalesced(blocks)[i],
                blocks[index],
            ),
    decreases model::sum_of(blocks, model::one_if_active()),
{
    model::lemma_pair_from(blocks, 0);
    heap_proofs::lemma_coalesced(blocks, heap_size);
    match model::pair_from(blocks, 0) {
        None => {
            assert(covers(model::coalesced(blocks)[index], blocks[index]));
        },
        Some((left, right)) => {
            let next = model::merge(blocks, left, right);
            model::lemma_merge_counts(blocks, left, right);
            heap_proofs::lemma_merge(blocks, left, right, heap_size);
            heap_proofs::lemma_sound(blocks[left], heap_size);
            heap_proofs::lemma_sound(blocks[right], heap_size);
            heap_proofs::lemma_apart_both(blocks, left, right, heap_size);
            let there = if index == right {
                left
            } else {
                index
            };
            assert(covers(next[there], blocks[index]));
            lemma_coalesced_covers(next, there, heap_size);
            let i = choose|i: int|
                0 <= i < next.len() && covers(#[trigger] model::coalesced(next)[i], next[there]);
            assert(covers(model::coalesced(blocks)[i], blocks[index]));
        },
    }
}

/// Rounding up keeps the order.
pub proof fn lemma_ceil_order(low: int, high: int, align: int)
    requires
        align > 0,
        low <= high,
        high % align == 0,
    ensures
        bits::ceil_to(low, align) <= high,
{
    bits::lemma_ceil_to(low, align);
    let c = bits::ceil_to(low, align);
    if c > high {
        vstd::arithmetic::div_mod::lemma_fundamental_div_mod(c, align);
        vstd::arithmetic::div_mod::lemma_fundamental_div_mod(high, align);
        let p = c / align;
        let q = high / align;
        assert(p >= q + 1) by (nonlinear_arith)
            requires
                align * p > align * q,
                align > 0,
        ;
        assert(align * p >= align * q + align) by (nonlinear_arith)
            requires
                p >= q + 1,
                align > 0,
        ;
        assert(false);
    }
}

/// What was freed can be had again: once an allocation has been given back, another one of the
/// same size and alignment succeeds.
pub proof fn law_freed_memory_can_be_reused(state: HeapState, address: u64)
    requires
        state.ok(),
        state.intact(address),
    ensures
        ({
            let block = state.block_at(address)->0;
            state.free(address).heap.can_alloc(block.requested_size, block.alignment)
        }),
{
    law_free(state, address);
    lemma_block_at(state, address);
    let heap_size = state.heap.region.size;
    let index = state.heap.find_address(address)->0;
    let block = state.heap.blocks[index];
    let after = state.free(address).heap;
    let between = state.heap.blocks_after_free(index);
    heap_proofs::lemma_metadata_ok(after);
    heap_proofs::lemma_release(state.heap, index, address);
    heap_proofs::lemma_region_bound(state.heap.region);
    assert(after.blocks == model::coalesced(between));
    lemma_coalesced_covers(between, index, heap_size);
    heap_proofs::lemma_coalesced(between, heap_size);
    let i = choose|i: int|
        0 <= i < between.len() && covers(#[trigger] model::coalesced(between)[i], between[index]);
    let large = after.blocks[i];
    let align = block.alignment;
    let eff = model::effective(align);
    heap_proofs::lemma_sound(large, heap_size);
    lemma_ceil_order(large.offset + 8, block.payload_offset as int, eff);
    bits::lemma_ceil_to(large.offset + 8, eff);
    assert(model::fitting(block.requested_size, eff)(large));
    heap_proofs::lemma_index_where(
        after.blocks,
        model::fitting(block.requested_size, eff),
        0,
    );
}

} // verus!
