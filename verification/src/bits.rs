//! Powers of two and alignment.
use vstd::arithmetic::div_mod;
use vstd::arithmetic::mul;
use vstd::arithmetic::power2;
use vstd::prelude::*;

verus! {

/// `x` is `1`, `2`, `4`, `8` and so on.
pub open spec fn is_pow2(x: int) -> bool {
    exists|k: nat| x == #[trigger] power2::pow2(k)
}

/// The largest multiple of `alignment` that is not above `value`.
pub open spec fn floor_to(value: int, alignment: int) -> int {
    value - value % alignment
}

/// The smallest multiple of `alignment` that is not below `value`.
pub open spec fn ceil_to(value: int, alignment: int) -> int {
    floor_to(value + alignment - 1, alignment)
}

/// The smaller of two numbers.
pub open spec fn min_of(a: int, b: int) -> int {
    if a <= b {
        a
    } else {
        b
    }
}

/// The larger of two numbers.
pub open spec fn max_of(a: int, b: int) -> int {
    if a >= b {
        a
    } else {
        b
    }
}

/// `x`, or the largest `u64` where `x` is above it.
pub open spec fn sat(x: int) -> int {
    min_of(x, u64::MAX as int)
}

/// One bit set is the same as being a power of two.
proof fn lemma_single_bit(x: u64)
    requires
        x != 0,
    ensures
        x & ((x - 1) as u64) == 0 <==> is_pow2(x as int),
    decreases x,
{
    power2::lemma_pow2_unfold(1);
    if x == 1 {
        assert(1u64 & 0u64 == 0) by (bit_vector);
        assert(power2::pow2(0) == 1) by {
            power2::lemma2_to64();
        }
        assert(is_pow2(1));
    } else if x % 2 == 1 {
        assert(x & ((x - 1) as u64) == x - 1) by (bit_vector)
            requires
                x % 2 == 1,
        ;
        if is_pow2(x as int) {
            let k = choose|k: nat| x as int == power2::pow2(k);
            if k == 0 {
                power2::lemma2_to64();
            } else {
                power2::lemma_pow2_unfold(k);
            }
            assert(false);
        }
    } else {
        let y = (x / 2) as u64;
        assert(x & ((x - 1) as u64) == 0 <==> y & ((y - 1) as u64) == 0) by (bit_vector)
            requires
                x % 2 == 0,
                x > 1,
                y == x / 2,
        ;
        lemma_single_bit(y);
        if is_pow2(y as int) {
            let k = choose|k: nat| y as int == power2::pow2(k);
            power2::lemma_pow2_unfold(k + 1);
            assert(x as int == power2::pow2(k + 1));
        }
        if is_pow2(x as int) {
            let k = choose|k: nat| x as int == power2::pow2(k);
            if k == 0 {
                power2::lemma2_to64();
            } else {
                power2::lemma_pow2_unfold(k);
                assert(y as int == power2::pow2((k - 1) as nat));
            }
        }
    }
}

/// Whether exactly one bit of `x` is set.
pub fn is_power_of_two(x: u64) -> (r: bool)
    ensures
        r == is_pow2(x as int),
{
    if x == 0 {
        proof {
            if is_pow2(0) {
                let k = choose|k: nat| 0int == power2::pow2(k);
                power2::lemma_pow2_pos(k);
            }
        }
        false
    } else {
        proof {
            lemma_single_bit(x);
        }
        x & (x - 1) == 0
    }
}

/// Clearing the low bits of `value` rounds it down.
proof fn lemma_mask_is_floor(value: u64, alignment: u64)
    requires
        is_pow2(alignment as int),
    ensures
        alignment > 0,
        value & !((alignment - 1) as u64) == floor_to(value as int, alignment as int),
{
    let k = choose|k: nat| alignment as int == power2::pow2(k);
    power2::lemma_pow2_pos(k);
    if k >= 64 {
        if k > 64 {
            power2::lemma_pow2_strictly_increases(64, k);
        }
        power2::lemma2_to64();
        assert(false);
    }
    vstd::bits::lemma_u64_low_bits_mask_is_mod(value, k);
    assert(vstd::bits::low_bits_mask(k) == alignment - 1);
    let mask = (alignment - 1) as u64;
    assert(value & !mask == value - (value & mask)) by (bit_vector);
}

/// Rounds `value` down to a multiple of `alignment`.
pub fn align_down(value: u64, alignment: u64) -> (r: u64)
    requires
        is_pow2(alignment as int),
    ensures
        r == floor_to(value as int, alignment as int),
{
    proof {
        lemma_mask_is_floor(value, alignment);
    }
    value & !(alignment - 1)
}

/// The smallest multiple of `alignment` that is not below `value`, or, where that does not
/// fit, the largest one that does.
pub open spec fn sat_ceil_to(value: int, alignment: int) -> int {
    floor_to(sat(value + alignment - 1), alignment)
}

/// Rounds `value` up to a multiple of `alignment`, stopping at the largest one that fits.
pub fn align_up(value: u64, alignment: u64) -> (r: u64)
    requires
        is_pow2(alignment as int),
    ensures
        r == sat_ceil_to(value as int, alignment as int),
{
    proof {
        lemma_is_pow2_pos(alignment as int);
    }
    align_down(value.saturating_add(alignment - 1), alignment)
}

/// `floor_to` gives a multiple that is less than one alignment away.
pub proof fn lemma_floor_to(value: int, alignment: int)
    requires
        alignment > 0,
    ensures
        floor_to(value, alignment) % alignment == 0,
        value - alignment < floor_to(value, alignment) <= value,
{
    let q = value / alignment;
    div_mod::lemma_fundamental_div_mod(value, alignment);
    div_mod::lemma_mod_bound(value, alignment);
    assert(floor_to(value, alignment) == alignment * q);
    div_mod::lemma_mod_multiples_basic(q, alignment);
    mul::lemma_mul_is_commutative(q, alignment);
}

/// `ceil_to` gives a multiple that is less than one alignment away.
pub proof fn lemma_ceil_to(value: int, alignment: int)
    requires
        alignment > 0,
    ensures
        ceil_to(value, alignment) % alignment == 0,
        value <= ceil_to(value, alignment) < value + alignment,
{
    lemma_floor_to(value + alignment - 1, alignment);
}

/// A power of two is positive.
pub proof fn lemma_is_pow2_pos(x: int)
    requires
        is_pow2(x),
    ensures
        x > 0,
{
    let k = choose|k: nat| x == power2::pow2(k);
    power2::lemma_pow2_pos(k);
}

/// Of two powers of two the smaller divides the larger.
pub proof fn lemma_pow2_divides(small: int, large: int)
    requires
        is_pow2(small),
        is_pow2(large),
        small <= large,
    ensures
        large % small == 0,
{
    let j = choose|k: nat| small == power2::pow2(k);
    let k = choose|k: nat| large == power2::pow2(k);
    power2::lemma_pow2_pos(j);
    if k < j {
        power2::lemma_pow2_strictly_increases(k, j);
        assert(false);
    }
    power2::lemma_pow2_adds(j, (k - j) as nat);
    div_mod::lemma_mod_multiples_basic(power2::pow2((k - j) as nat) as int, small);
    mul::lemma_mul_is_commutative(power2::pow2((k - j) as nat) as int, small);
}

/// The page size and the other small powers of two in use.
pub proof fn lemma_small_pow2()
    ensures
        is_pow2(1),
        is_pow2(4),
        is_pow2(8),
        is_pow2(16),
        is_pow2(32),
        is_pow2(64),
        is_pow2(4096),
{
    power2::lemma2_to64();
    assert(1int == power2::pow2(0) && 4int == power2::pow2(2) && 8int == power2::pow2(3) && 16int == power2::pow2(4));
    assert(32int == power2::pow2(5) && 64int == power2::pow2(6) && 4096int == power2::pow2(12));
}

} // verus!
