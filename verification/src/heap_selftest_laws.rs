//! The heap's tests of itself leave its allocations as they found them.
use crate::heap_laws as laws;
use crate::heap_laws::HeapState;
use crate::heap_selftest;
use vstd::prelude::*;

verus! {

/// `state` has what `base` has, and besides it `held`: addresses that were not given out in
/// `base`, with the sizes that were asked for.
pub open spec fn holds_besides(base: HeapState, state: HeapState, held: Map<u64, u64>) -> bool {
    &&& state.ok()
    &&& state.heap.region == base.heap.region
    &&& state.sentinel() == base.sentinel()
    &&& held.dom().finite()
    &&& state.live_count() == base.live_count() + held.dom().len()
    &&& forall|a: u64|
        #![trigger state.block_at(a)]
        #![trigger base.block_at(a)]
        !held.dom().contains(a) ==> state.block_at(a) == base.block_at(a)
    &&& forall|a: u64|
        #![trigger state.intact(a)]
        #![trigger base.intact(a)]
        !held.dom().contains(a) ==> state.intact(a) == base.intact(a)
    &&& forall|a: u64|
        #![trigger held.dom().contains(a)]
        held.dom().contains(a) ==> state.intact(a) && base.block_at(a) is None && state.block_at(
            a,
        )->0.requested_size == held[a]
}

#[verifier::rlimit(40)]
proof fn lemma_take(
    base: HeapState,
    state: HeapState,
    held: Map<u64, u64>,
    size: u64,
    align: u64,
)
    requires
        holds_besides(base, state, held),
    ensures
        state.address(size, align) matches Some(address) ==> !held.dom().contains(address)
            && address != 0 && holds_besides(
            base,
            state.allocate(size, align),
            held.insert(address, size),
        ),
        state.address(size, align) is None ==> holds_besides(
            base,
            state.allocate(size, align),
            held,
        ),
{
    laws::law_alloc(state, size, align);
    let after = state.allocate(size, align);
    if state.address(size, align) is Some {
        let address = state.address(size, align)->0;
        if held.dom().contains(address) {
            assert(state.intact(address));
        }
        let more = held.insert(address, size);
        assert(base.block_at(address) is None) by {
            assert(state.block_at(address) == base.block_at(address));
        }
        assert forall|a: u64|
            #![trigger more.dom().contains(a)]
            more.dom().contains(a) implies after.intact(a) && base.block_at(a) is None
            && after.block_at(a)->0.requested_size == more[a] by {
            if a != address {
                assert(held.dom().contains(a));
                assert(after.intact(a) == state.intact(a));
                assert(after.block_at(a) == state.block_at(a));
            }
        }
        assert forall|a: u64|
            #![trigger after.block_at(a)]
            #![trigger base.block_at(a)]
            !more.dom().contains(a) implies after.block_at(a) == base.block_at(a) by {
            assert(after.block_at(a) == state.block_at(a));
            assert(!held.dom().contains(a));
        }
        assert forall|a: u64|
            #![trigger after.intact(a)]
            #![trigger base.intact(a)]
            !more.dom().contains(a) implies after.intact(a) == base.intact(a) by {
            assert(after.intact(a) == state.intact(a));
            assert(!held.dom().contains(a));
        }
    } else {
        assert forall|a: u64|
            #![trigger held.dom().contains(a)]
            held.dom().contains(a) implies after.intact(a) && base.block_at(a) is None
            && after.block_at(a)->0.requested_size == held[a] by {
            assert(after.intact(a) == state.intact(a));
            assert(after.block_at(a) == state.block_at(a));
        }
        assert forall|a: u64|
            #![trigger after.intact(a)]
            #![trigger base.intact(a)]
            !held.dom().contains(a) implies after.intact(a) == base.intact(a) by {
            assert(after.intact(a) == state.intact(a));
        }
        assert forall|a: u64|
            #![trigger after.block_at(a)]
            #![trigger base.block_at(a)]
            !held.dom().contains(a) implies after.block_at(a) == base.block_at(a) by {
            assert(after.block_at(a) == state.block_at(a));
        }
    }
}

proof fn lemma_fill(
    base: HeapState,
    state: HeapState,
    held: Map<u64, u64>,
    address: u64,
    size: u64,
    seed: u8,
)
    requires
        holds_besides(base, state, held),
        held.dom().contains(address),
        held[address] == size,
    ensures
        holds_besides(base, state.fill(address, size, seed), held),
{
    let data = laws::pattern(seed, size);
    let after = state.fill(address, size, seed);
    assert(state.intact(address));
    laws::lemma_block_at(state, address);
    laws::law_payload_is_free_to_use(state, address, address, data);
    assert forall|a: u64|
        #![trigger held.dom().contains(a)]
        held.dom().contains(a) implies after.intact(a) && base.block_at(a) is None
        && after.block_at(a)->0.requested_size == held[a] by {
        assert(after.intact(a) == state.intact(a));
        assert(after.block_at(a) == state.block_at(a));
    }
    assert forall|a: u64|
        #![trigger after.intact(a)]
        #![trigger base.intact(a)]
        !held.dom().contains(a) implies after.intact(a) == base.intact(a) by {
        assert(after.intact(a) == state.intact(a));
    }
    assert forall|a: u64|
        #![trigger after.block_at(a)]
        #![trigger base.block_at(a)]
        !held.dom().contains(a) implies after.block_at(a) == base.block_at(a) by {
        assert(after.block_at(a) == state.block_at(a));
    }
}

proof fn lemma_give(base: HeapState, state: HeapState, held: Map<u64, u64>, address: u64)
    requires
        holds_besides(base, state, held),
        held.dom().contains(address),
    ensures
        holds_besides(base, state.free(address), held.remove(address)),
        state.answer(address) is Ok,
{
    let after = state.free(address);
    let less = held.remove(address);
    assert(state.intact(address));
    laws::law_free(state, address);
    assert forall|a: u64|
        #![trigger less.dom().contains(a)]
        less.dom().contains(a) implies after.intact(a) && base.block_at(a) is None
        && after.block_at(a)->0.requested_size == less[a] by {
        assert(held.dom().contains(a));
        assert(after.intact(a) == state.intact(a));
        assert(after.block_at(a) == state.block_at(a));
    }
    assert forall|a: u64|
        #![trigger after.block_at(a)]
        #![trigger base.block_at(a)]
        !less.dom().contains(a) implies after.block_at(a) == base.block_at(a) by {
        if a != address {
            assert(!held.dom().contains(a));
            assert(after.block_at(a) == state.block_at(a));
        }
    }
    assert forall|a: u64|
        #![trigger after.intact(a)]
        #![trigger base.intact(a)]
        !less.dom().contains(a) implies after.intact(a) == base.intact(a) by {
        if a != address {
            assert(!held.dom().contains(a));
            assert(after.intact(a) == state.intact(a));
        } else {
            assert(after.block_at(a) is None && base.block_at(a) is None);
        }
    }
}

/// States with the same blocks and the same bytes hold the same.
proof fn lemma_like(base: HeapState, state: HeapState, after: HeapState, held: Map<u64, u64>)
    requires
        holds_besides(base, state, held),
        after.ok(),
        after.heap.region == state.heap.region,
        after.heap.blocks == state.heap.blocks,
        after.memory == state.memory,
    ensures
        holds_besides(base, after, held),
{
    assert forall|a: u64|
        #![trigger held.dom().contains(a)]
        held.dom().contains(a) implies after.intact(a) && base.block_at(a) is None
        && after.block_at(a)->0.requested_size == held[a] by {
        assert(after.block_at(a) == state.block_at(a));
        assert(state.intact(a));
    }
    assert forall|a: u64|
        #![trigger after.intact(a)]
        #![trigger base.intact(a)]
        !held.dom().contains(a) implies after.intact(a) == base.intact(a) by {
        assert(after.block_at(a) == state.block_at(a));
        assert(state.intact(a) == base.intact(a));
    }
    assert forall|a: u64|
        #![trigger after.block_at(a)]
        #![trigger base.block_at(a)]
        !held.dom().contains(a) implies after.block_at(a) == base.block_at(a) by {
        assert(after.block_at(a) == state.block_at(a));
    }
}

/// An address that is not given out cannot be freed, and trying changes nothing of this.
proof fn lemma_refused(base: HeapState, state: HeapState, held: Map<u64, u64>, address: u64)
    requires
        holds_besides(base, state, held),
        !held.dom().contains(address),
        base.block_at(address) is None,
    ensures
        holds_besides(base, state.free(address), held),
{
    assert(state.block_at(address) is None);
    laws::law_bad_frees_change_nothing(state, address);
    lemma_like(base, state, state.free(address), held);
}

/// Damage that is noticed and then mended leaves no trace in this.
#[verifier::rlimit(40)]
proof fn lemma_mend(base: HeapState, state: HeapState, held: Map<u64, u64>, address: u64)
    requires
        holds_besides(base, state, held),
        held.dom().contains(address),
    ensures
        holds_besides(base, state.corrupt(address).free(address).repair(address), held),
{
    let damaged = state.corrupt(address);
    let mended = damaged.repair(address);
    assert(state.intact(address));
    laws::law_corruption_is_detected(state, address);
    assert forall|a: u64|
        #![trigger held.dom().contains(a)]
        held.dom().contains(a) implies mended.intact(a) && base.block_at(a) is None
        && mended.block_at(a)->0.requested_size == held[a] by {
        assert(mended.block_at(a) == state.block_at(a));
        assert(a != address ==> mended.intact(a) == state.intact(a));
    }
    assert forall|a: u64|
        #![trigger mended.intact(a)]
        #![trigger base.intact(a)]
        !held.dom().contains(a) implies mended.intact(a) == base.intact(a) by {
        assert(mended.intact(a) == state.intact(a));
    }
    assert forall|a: u64|
        #![trigger mended.block_at(a)]
        #![trigger base.block_at(a)]
        !held.dom().contains(a) implies mended.block_at(a) == base.block_at(a) by {
        assert(mended.block_at(a) == state.block_at(a));
    }
    assert(holds_besides(base, mended, held));
    laws::law_bad_frees_change_nothing(damaged, address);
    let tried = damaged.free(address);
    let after = tried.repair(address);
    assert(tried.block_at(address) == damaged.block_at(address));
    assert(after.memory == mended.memory);
    assert(after.heap == tried.heap);
    assert(after.ok());
    lemma_like(base, mended, after, held);
}

/// What was given out before a test is given out after it, at the same addresses and with the same
/// canaries, and nothing besides.
pub open spec fn left_as_found(before: HeapState, after: HeapState) -> bool {
    &&& after.ok()
    &&& after.heap.region == before.heap.region
    &&& after.sentinel() == before.sentinel()
    &&& after.live_count() == before.live_count()
    &&& forall|a: u64|
        #![trigger after.block_at(a)]
        #![trigger before.block_at(a)]
        after.block_at(a) == before.block_at(a)
    &&& forall|a: u64|
        #![trigger after.intact(a)]
        #![trigger before.intact(a)]
        after.intact(a) == before.intact(a)
}

proof fn lemma_nothing_held(base: HeapState, state: HeapState, held: Map<u64, u64>)
    requires
        holds_besides(base, state, held),
        forall|a: u64| !held.dom().contains(a),
    ensures
        left_as_found(base, state),
{
    assert(held.dom() =~= Set::empty());
}

proof fn lemma_start(base: HeapState)
    requires
        base.ok(),
    ensures
        holds_besides(base, base, Map::empty()),
{
}

/// A probe leaves the heap's allocations as it found them.
pub proof fn law_probes_leave_nothing_behind(state: HeapState)
    requires
        state.ok(),
    ensures
        left_as_found(state, heap_selftest::probe_end(state).0),
{
    let none = Map::<u64, u64>::empty();
    lemma_start(state);
    lemma_take(state, state, none, 32, 8);
    let one = state.allocate(32, 8);
    match state.address(32, 8) {
        None => {
            lemma_nothing_held(state, one, none);
        },
        Some(address) => {
            let held = none.insert(address, 32);
            lemma_fill(state, one, held, address, 32, 0xa5);
            let two = one.fill(address, 32, 0xa5);
            lemma_give(state, two, held, address);
            lemma_nothing_held(state, two.free(address), held.remove(address));
        },
    }
}

/// The heap's test of itself leaves its allocations as it found them, whether it had the room that
/// it needs or not.
#[verifier::rlimit(40)]
pub proof fn law_selftests_leave_nothing_behind(state: HeapState)
    requires
        state.ok(),
    ensures
        left_as_found(state, heap_selftest::selftest_end(state).0),
{
    let none = Map::<u64, u64>::empty();
    lemma_start(state);
    let one = state.allocate(64, 16);
    let two = one.allocate(128, 64);
    let three = two.allocate(32, 8);
    lemma_take(state, state, none, 64, 16);
    if state.address(64, 16) is None {
        lemma_nothing_held(state, one, none);
    } else {
        let first = state.address(64, 16)->0;
        let h1 = none.insert(first, 64);
        lemma_take(state, one, h1, 128, 64);
        if one.address(128, 64) is None {
            lemma_give(state, two, h1, first);
            lemma_nothing_held(state, two.free(first), h1.remove(first));
        } else {
            let second = one.address(128, 64)->0;
            let h2 = h1.insert(second, 128);
            lemma_take(state, two, h2, 32, 8);
            if two.address(32, 8) is None {
                lemma_give(state, three, h2, second);
                let freed = three.free(second);
                lemma_give(state, freed, h2.remove(second), first);
                lemma_nothing_held(
                    state,
                    freed.free(first),
                    h2.remove(second).remove(first),
                );
            } else {
                let third = two.address(32, 8)->0;
                let h3 = h2.insert(third, 32);
                lemma_middle(state, three, h3, first, second, third);
                let middle = heap_selftest::selftest_middle(three, first, second, third);
                lemma_rest(state, middle, h3.remove(second), first, third);
            }
        }
    }
}

proof fn lemma_middle(
    base: HeapState,
    state: HeapState,
    held: Map<u64, u64>,
    first: u64,
    second: u64,
    third: u64,
)
    requires
        holds_besides(base, state, held),
        held.dom().contains(first) && held[first] == 64,
        held.dom().contains(second) && held[second] == 128,
        held.dom().contains(third) && held[third] == 32,
    ensures
        holds_besides(
            base,
            heap_selftest::selftest_middle(state, first, second, third),
            held.remove(second),
        ),
{
    lemma_fill(base, state, held, first, 64, 0x11);
    let a = state.fill(first, 64, 0x11);
    lemma_fill(base, a, held, second, 128, 0x22);
    let b = a.fill(second, 128, 0x22);
    lemma_fill(base, b, held, third, 32, 0x33);
    let c = b.fill(third, 32, 0x33);
    lemma_give(base, c, held, second);
    lemma_refused(base, c.free(second), held.remove(second), second);
}

#[verifier::rlimit(40)]
proof fn lemma_rest(
    base: HeapState,
    middle: HeapState,
    held: Map<u64, u64>,
    first: u64,
    third: u64,
)
    requires
        holds_besides(base, middle, held),
        first != third,
        held.dom().contains(first),
        held.dom().contains(third),
        forall|a: u64| #[trigger] held.dom().contains(a) ==> a == first || a == third,
    ensures
        ({
            let four = middle.allocate(96, 32);
            match middle.address(96, 32) {
                None => left_as_found(base, four.free(first).free(third)),
                Some(reused) => {
                    let filled = four.fill(reused, 96, 0x44);
                    let five = filled.allocate(24, 8);
                    match filled.address(24, 8) {
                        None => left_as_found(base, five.free(reused).free(third).free(first)),
                        Some(corrupt) => left_as_found(
                            base,
                            five.corrupt(corrupt).free(corrupt).repair(corrupt).free(corrupt).free(
                                reused,
                            ).free(third).free(first),
                        ),
                    }
                },
            }
        }),
{
    let four = middle.allocate(96, 32);
    lemma_take(base, middle, held, 96, 32);
    match middle.address(96, 32) {
        None => {
            lemma_give(base, four, held, first);
            lemma_give(base, four.free(first), held.remove(first), third);
            lemma_nothing_held(
                base,
                four.free(first).free(third),
                held.remove(first).remove(third),
            );
        },
        Some(reused) => {
            let more = held.insert(reused, 96);
            lemma_fill(base, four, more, reused, 96, 0x44);
            let filled = four.fill(reused, 96, 0x44);
            let five = filled.allocate(24, 8);
            lemma_take(base, filled, more, 24, 8);
            match filled.address(24, 8) {
                None => {
                    lemma_give_three(base, five, more, reused, third, first);
                },
                Some(corrupt) => {
                    let most = more.insert(corrupt, 24);
                    lemma_mend(base, five, most, corrupt);
                    let mended = five.corrupt(corrupt).free(corrupt).repair(corrupt);
                    lemma_give(base, mended, most, corrupt);
                    lemma_give_three(
                        base,
                        mended.free(corrupt),
                        most.remove(corrupt),
                        reused,
                        third,
                        first,
                    );
                },
            }
        },
    }
}

proof fn lemma_give_three(
    base: HeapState,
    state: HeapState,
    held: Map<u64, u64>,
    a: u64,
    b: u64,
    c: u64,
)
    requires
        holds_besides(base, state, held),
        a != b,
        a != c,
        b != c,
        held.dom().contains(a),
        held.dom().contains(b),
        held.dom().contains(c),
        forall|x: u64| #[trigger] held.dom().contains(x) ==> x == a || x == b || x == c,
    ensures
        left_as_found(base, state.free(a).free(b).free(c)),
{
    lemma_give(base, state, held, a);
    lemma_give(base, state.free(a), held.remove(a), b);
    lemma_give(base, state.free(a).free(b), held.remove(a).remove(b), c);
    lemma_nothing_held(
        base,
        state.free(a).free(b).free(c),
        held.remove(a).remove(b).remove(c),
    );
}

/// The addresses from `from` on that are not zero are those held, and are all different.
spec fn listed(addresses: Seq<u64>, from: int, held: Map<u64, u64>) -> bool {
    &&& forall|i: int|
        from <= i < addresses.len() && #[trigger] addresses[i] != 0 ==> held.dom().contains(
            addresses[i],
        )
    &&& forall|i: int, j: int|
        from <= i < j < addresses.len() && #[trigger] addresses[i] != 0 && #[trigger] addresses[j]
            != 0 ==> addresses[i] != addresses[j]
    &&& forall|a: u64| #[trigger]
        held.dom().contains(a) ==> exists|i: int|
            from <= i < addresses.len() && #[trigger] addresses[i] == a && a != 0
}

/// Freeing all addresses of a list that are not zero takes everything back that it holds.
proof fn lemma_cleaned(
    base: HeapState,
    state: HeapState,
    held: Map<u64, u64>,
    addresses: Seq<u64>,
    from: int,
)
    requires
        0 <= from <= addresses.len(),
        holds_besides(base, state, held),
        listed(addresses, from, held),
    ensures
        left_as_found(base, heap_selftest::cleaned(state, addresses, from)),
        heap_selftest::cleans_up(state, addresses, from),
    decreases addresses.len() - from,
{
    if from == addresses.len() {
        assert forall|a: u64| !held.dom().contains(a) by {}
        lemma_nothing_held(base, state, held);
    } else if addresses[from] != 0 {
        let address = addresses[from];
        let less = held.remove(address);
        assert(held.dom().contains(address));
        lemma_give(base, state, held, address);
        assert forall|a: u64| #[trigger] less.dom().contains(a) implies exists|i: int|
            from + 1 <= i < addresses.len() && #[trigger] addresses[i] == a && a != 0 by {
            assert(held.dom().contains(a));
            let i = choose|i: int|
                from <= i < addresses.len() && #[trigger] addresses[i] == a && a != 0;
            assert(i != from);
        }
        lemma_cleaned(base, state.free(address), less, addresses, from + 1);
    } else {
        assert forall|a: u64| #[trigger] held.dom().contains(a) implies exists|i: int|
            from + 1 <= i < addresses.len() && #[trigger] addresses[i] == a && a != 0 by {
            let i = choose|i: int|
                from <= i < addresses.len() && #[trigger] addresses[i] == a && a != 0;
            assert(i != from);
        }
        lemma_cleaned(base, state, held, addresses, from + 1);
    }
}

/// Freeing each address of a list that was given out besides takes all of them back. Zero stands
/// for no address.
pub proof fn law_lists_are_given_back(
    base: HeapState,
    state: HeapState,
    held: Map<u64, u64>,
    addresses: Seq<u64>,
)
    requires
        holds_besides(base, state, held),
        forall|i: int|
            0 <= i < addresses.len() && #[trigger] addresses[i] != 0 ==> held.dom().contains(
                addresses[i],
            ),
        forall|i: int, j: int|
            0 <= i < j < addresses.len() && #[trigger] addresses[i] != 0 && #[trigger] addresses[j]
                != 0 ==> addresses[i] != addresses[j],
        forall|a: u64| #[trigger]
            held.dom().contains(a) ==> a != 0 && exists|i: int|
                0 <= i < addresses.len() && #[trigger] addresses[i] == a,
    ensures
        left_as_found(base, heap_selftest::cleaned(state, addresses, 0)),
        heap_selftest::cleans_up(state, addresses, 0),
{
    lemma_cleaned(base, state, held, addresses, 0);
}

#[verifier::rlimit(40)]
proof fn lemma_stress_fill(
    base: HeapState,
    state: HeapState,
    held: Map<u64, u64>,
    addresses: Seq<u64>,
    index: int,
) -> (all: Map<u64, u64>)
    requires
        0 <= index <= 8,
        addresses.len() == 8,
        forall|i: int| 0 <= i < index ==> #[trigger] addresses[i] != 0,
        forall|i: int| index <= i < 8 ==> #[trigger] addresses[i] == 0,
        holds_besides(base, state, held),
        listed(addresses, 0, held),
    ensures
        ({
            let (full, given, room) = heap_selftest::stress_fill(state, addresses, index);
            &&& given.len() == 8
            &&& !room ==> left_as_found(base, full)
            &&& room ==> {
                &&& holds_besides(base, full, all)
                &&& listed(given, 0, all)
                &&& forall|i: int| 0 <= i < 8 ==> #[trigger] given[i] != 0
            }
        }),
    decreases 8 - index,
{
    if index == 8 {
        held
    } else {
        let size = heap_selftest::stress_size(index);
        let align = heap_selftest::stress_align(index);
        lemma_take(base, state, held, size, align);
        match state.address(size, align) {
            None => {
                lemma_cleaned(base, state.allocate(size, align), held, addresses, 0);
                held
            },
            Some(address) => {
                let more = held.insert(address, size);
                let given = addresses.update(index, address);
                lemma_fill(
                    base,
                    state.allocate(size, align),
                    more,
                    address,
                    size,
                    index as u8,
                );
                assert forall|i: int| 0 <= i < 8 && #[trigger] given[i] != 0 implies
                    more.dom().contains(given[i]) by {
                    if i != index {
                        assert(held.dom().contains(addresses[i]));
                    }
                }
                assert forall|i: int, j: int|
                    0 <= i < j < 8 && #[trigger] given[i] != 0 && #[trigger] given[j]
                        != 0 implies given[i] != given[j] by {
                    if j == index {
                        assert(held.dom().contains(addresses[i]));
                    } else {
                        assert(addresses[j] == given[j]);
                    }
                }
                assert forall|a: u64| #[trigger] more.dom().contains(a) implies exists|i: int|
                    0 <= i < 8 && #[trigger] given[i] == a && a != 0 by {
                    if a == address {
                        assert(given[index] == a);
                    } else {
                        assert(held.dom().contains(a));
                        let i = choose|i: int|
                            0 <= i < addresses.len() && #[trigger] addresses[i] == a && a != 0;
                        assert(given[i] == a);
                    }
                }
                lemma_stress_fill(
                    base,
                    state.allocate(size, align).fill(address, size, index as u8),
                    more,
                    given,
                    index + 1,
                )
            },
        }
    }
}

/// A list from which three entries were struck lists what is left.
proof fn lemma_struck(given: Seq<u64>, all: Map<u64, u64>)
    requires
        given.len() == 8,
        listed(given, 0, all),
        forall|i: int| 0 <= i < 8 ==> #[trigger] given[i] != 0,
    ensures
        ({
            let left = given.update(1, 0).update(3, 0).update(5, 0);
            &&& listed(left, 0, all.remove(given[1]).remove(given[3]).remove(given[5]))
            &&& all.dom().contains(given[1])
            &&& all.remove(given[1]).dom().contains(given[3])
            &&& all.remove(given[1]).remove(given[3]).dom().contains(given[5])
        }),
{
    let left = given.update(1, 0).update(3, 0).update(5, 0);
    let less = all.remove(given[1]).remove(given[3]).remove(given[5]);
    assert(given[1] != given[3] && given[1] != given[5] && given[3] != given[5]);
    assert forall|i: int| 0 <= i < 8 && #[trigger] left[i] != 0 implies less.dom().contains(
        left[i],
    ) by {
        assert(left[i] == given[i]);
        assert(i != 1 && i != 3 && i != 5);
        assert(all.dom().contains(given[i]));
        assert(given[i] != given[1] && given[i] != given[3] && given[i] != given[5]);
    }
    assert forall|i: int, j: int|
        0 <= i < j < 8 && #[trigger] left[i] != 0 && #[trigger] left[j] != 0 implies left[i]
        != left[j] by {
        assert(left[i] == given[i] && left[j] == given[j]);
    }
    assert forall|a: u64| #[trigger] less.dom().contains(a) implies exists|i: int|
        0 <= i < 8 && #[trigger] left[i] == a && a != 0 by {
        assert(all.dom().contains(a));
        let i = choose|i: int| 0 <= i < given.len() && #[trigger] given[i] == a && a != 0;
        assert(left[i] == a);
    }
}

/// The stress test leaves the heap's allocations as it found them, whether it had the room that it
/// needs or not.
#[verifier::rlimit(40)]
pub proof fn law_stress_leaves_nothing_behind(state: HeapState)
    requires
        state.ok(),
    ensures
        left_as_found(state, heap_selftest::stress_end(state).0),
{
    let none = Map::<u64, u64>::empty();
    let zeros = Seq::new(8, |i: int| 0u64);
    lemma_start(state);
    let all = lemma_stress_fill(state, state, none, zeros, 0);
    let (full, given, room) = heap_selftest::stress_fill(state, zeros, 0);
    if room {
        lemma_struck(given, all);
        let left = given.update(1, 0).update(3, 0).update(5, 0);
        let a1 = all.remove(given[1]);
        let a2 = a1.remove(given[3]);
        let held = a2.remove(given[5]);
        lemma_give(state, full, all, given[1]);
        lemma_give(state, full.free(given[1]), a1, given[3]);
        lemma_give(state, full.free(given[1]).free(given[3]), a2, given[5]);
        let holes = full.free(given[1]).free(given[3]).free(given[5]);
        let one = holes.allocate(48, 16);
        let two = one.allocate(96, 32);
        lemma_take(state, holes, held, 48, 16);
        if holes.address(48, 16) is None {
            lemma_cleaned(state, one, held, left, 0);
        } else {
            let first = holes.address(48, 16)->0;
            let more = held.insert(first, 48);
            lemma_take(state, one, more, 96, 32);
            if one.address(96, 32) is None {
                lemma_give(state, two, more, first);
                assert(more.remove(first) =~= held);
                lemma_cleaned(state, two.free(first), held, left, 0);
            } else {
                let second = one.address(96, 32)->0;
                let most = more.insert(second, 96);
                lemma_fill(state, two, most, first, 48, 0x77);
                let a = two.fill(first, 48, 0x77);
                lemma_fill(state, a, most, second, 96, 0x88);
                let b = a.fill(second, 96, 0x88);
                lemma_give(state, b, most, second);
                assert(most.remove(second) =~= more);
                lemma_give(state, b.free(second), more, first);
                assert(more.remove(first) =~= held);
                lemma_cleaned(state, b.free(second).free(first), held, left, 0);
            }
        }
    }
}

} // verus!
