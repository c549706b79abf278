//! Little-endian integers inside byte sequences.
use vstd::prelude::*;

verus! {

/// The little-endian number held by the `width` bytes of `s` that start at `at`.
pub open spec fn le_at(s: Seq<u8>, at: int, width: nat) -> nat
    decreases width,
{
    if width == 0 {
        0
    } else {
        s[at] as nat + 256 * le_at(s, at + 1, (width - 1) as nat)
    }
}

/// The `width` low bytes of `value`, least significant first.
pub open spec fn le_bytes(value: nat, width: nat) -> Seq<u8>
    decreases width,
{
    if width == 0 {
        Seq::empty()
    } else {
        seq![(value % 256) as u8] + le_bytes(value / 256, (width - 1) as nat)
    }
}

/// `256` to the power `width`: how many values fit in `width` bytes.
pub open spec fn byte_range(width: nat) -> nat
    decreases width,
{
    if width == 0 {
        1
    } else {
        256 * byte_range((width - 1) as nat)
    }
}

/// `s` with the bytes of `data` put at `at`.
pub open spec fn overwrite(s: Seq<u8>, at: int, data: Seq<u8>) -> Seq<u8> {
    Seq::new(
        s.len(),
        |i: int|
            if at <= i < at + data.len() {
                data[i - at]
            } else {
                s[i]
            },
    )
}

/// `le_bytes` gives as many bytes as it is asked for.
pub proof fn lemma_le_bytes_len(value: nat, width: nat)
    ensures
        le_bytes(value, width).len() == width,
    decreases width,
{
    if width > 0 {
        lemma_le_bytes_len(value / 256, (width - 1) as nat);
    }
}

/// Only the bytes that a number covers decide it.
pub proof fn lemma_le_at_frame(s: Seq<u8>, at: int, t: Seq<u8>, bt: int, width: nat)
    requires
        forall|i: int| 0 <= i < width ==> s[#[trigger] (at + i)] == t[bt + i],
    ensures
        le_at(s, at, width) == le_at(t, bt, width),
    decreases width,
{
    if width > 0 {
        assert(s[at + 0] == t[bt + 0]);
        assert forall|i: int| 0 <= i < width - 1 implies s[#[trigger] (at + 1 + i)] == t[bt + 1
            + i] by {
            assert(s[at + (i + 1)] == t[bt + (i + 1)]);
        }
        lemma_le_at_frame(s, at + 1, t, bt + 1, (width - 1) as nat);
    }
}

/// The bytes of a number read back as that number.
pub proof fn lemma_le_bytes_value(s: Seq<u8>, at: int, value: nat, width: nat)
    requires
        value < byte_range(width),
        forall|i: int| 0 <= i < width ==> s[#[trigger] (at + i)] == le_bytes(value, width)[i],
    ensures
        le_at(s, at, width) == value,
    decreases width,
{
    if width > 0 {
        let rest = (width - 1) as nat;
        lemma_le_bytes_len(value / 256, rest);
        assert(s[at + 0] == le_bytes(value, width)[0]);
        assert forall|i: int| 0 <= i < rest implies s[#[trigger] (at + 1 + i)] == le_bytes(
            value / 256,
            rest,
        )[i] by {
            assert(s[at + (i + 1)] == le_bytes(value, width)[i + 1]);
        }
        lemma_le_bytes_value(s, at + 1, value / 256, rest);
    }
}

/// A number of `width` bytes is below `256` to the power `width`.
pub proof fn lemma_le_at_bound(s: Seq<u8>, at: int, width: nat)
    ensures
        le_at(s, at, width) < byte_range(width),
    decreases width,
{
    if width > 0 {
        lemma_le_at_bound(s, at + 1, (width - 1) as nat);
    }
}

/// Writing a number and reading it back gives the number.
pub broadcast proof fn lemma_le_at_overwrite_same(s: Seq<u8>, at: int, value: nat, width: nat)
    requires
        0 <= at,
        at + width <= s.len(),
        value < byte_range(width),
    ensures
        #[trigger] le_at(overwrite(s, at, le_bytes(value, width)), at, width) == value,
{
    lemma_le_bytes_len(value, width);
    let t = overwrite(s, at, le_bytes(value, width));
    assert forall|i: int| 0 <= i < width implies t[#[trigger] (at + i)] == le_bytes(
        value,
        width,
    )[i] by {}
    lemma_le_bytes_value(t, at, value, width);
}

/// A write elsewhere leaves a number alone.
pub broadcast proof fn lemma_le_at_overwrite_other(
    s: Seq<u8>,
    at: int,
    data: Seq<u8>,
    other: int,
    width: nat,
)
    requires
        0 <= other,
        other + width <= s.len(),
        other + width <= at || at + data.len() <= other,
    ensures
        #[trigger] le_at(overwrite(s, at, data), other, width) == le_at(s, other, width),
{
    lemma_le_at_frame(overwrite(s, at, data), other, s, other, width);
}

/// Puts `value` into `destination` at `offset`, least significant byte first.
pub fn write_u16(destination: &mut [u8], offset: usize, value: u16)
    requires
        offset + 2 <= old(destination)@.len(),
    ensures
        final(destination)@ == overwrite(
            old(destination)@,
            offset as int,
            le_bytes(value as nat, 2),
        ),
{
    write_le(destination, offset, value as u64, 2);
}

/// Puts `value` into `destination` at `offset`, least significant byte first.
pub fn write_u32(destination: &mut [u8], offset: usize, value: u32)
    requires
        offset + 4 <= old(destination)@.len(),
    ensures
        final(destination)@ == overwrite(
            old(destination)@,
            offset as int,
            le_bytes(value as nat, 4),
        ),
{
    write_le(destination, offset, value as u64, 4);
}

/// Puts `value` into `destination` at `offset`, least significant byte first.
pub fn write_u64(destination: &mut [u8], offset: usize, value: u64)
    requires
        offset + 8 <= old(destination)@.len(),
    ensures
        final(destination)@ == overwrite(
            old(destination)@,
            offset as int,
            le_bytes(value as nat, 8),
        ),
{
    write_le(destination, offset, value, 8);
}

fn write_le(destination: &mut [u8], offset: usize, value: u64, width: usize)
    requires
        offset + width <= old(destination)@.len(),
    ensures
        final(destination)@ == overwrite(
            old(destination)@,
            offset as int,
            le_bytes(value as nat, width as nat),
        ),
{
    let ghost before = destination@;
    let ghost bytes = le_bytes(value as nat, width as nat);
    let length: usize = destination.len();
    let mut rest: u64 = value;
    let mut index: usize = 0;
    proof {
        lemma_le_bytes_len(value as nat, width as nat);
        assert(bytes.skip(0) =~= bytes);
    }
    while index < width
        invariant
            offset + width <= length,
            length == destination@.len(),
            before.len() == length,
            index <= width,
            bytes.len() == width,
            bytes.skip(index as int) == le_bytes(rest as nat, (width - index) as nat),
            forall|i: int|
                0 <= i < length ==> #[trigger] destination@[i] == if offset <= i < offset + index {
                    bytes[i - offset]
                } else {
                    before[i]
                },
        decreases width - index,
    {
        proof {
            let tail = le_bytes(rest as nat / 256, (width - index - 1) as nat);
            lemma_le_bytes_len(rest as nat / 256, (width - index - 1) as nat);
            assert(bytes.skip(index as int)[0] == (rest % 256) as u8);
            assert(bytes.skip(index + 1) =~= bytes.skip(index as int).skip(1));
            assert(bytes.skip(index as int).skip(1) =~= tail);
        }
        destination[offset + index] = (rest % 256) as u8;
        rest = rest / 256;
        index = index + 1;
    }
    assert(destination@ =~= overwrite(before, offset as int, bytes));
}

/// The 16-bit little-endian number at `offset`.
pub fn read_u16(source: &[u8], offset: usize) -> (value: u16)
    requires
        offset + 2 <= source@.len(),
    ensures
        value == le_at(source@, offset as int, 2),
{
    let length: usize = source.len();
    reveal_with_fuel(le_at, 3);
    source[offset] as u16 + 256 * (source[offset + 1] as u16)
}

/// The 32-bit little-endian number at `offset`.
pub fn read_u32(source: &[u8], offset: usize) -> (value: u32)
    requires
        offset + 4 <= source@.len(),
    ensures
        value == le_at(source@, offset as int, 4),
{
    let length: usize = source.len();
    reveal_with_fuel(le_at, 5);
    source[offset] as u32 + 256 * (source[offset + 1] as u32 + 256 * (source[offset + 2] as u32
        + 256 * (source[offset + 3] as u32)))
}

/// The 64-bit little-endian number at `offset`.
pub fn read_u64(source: &[u8], offset: usize) -> (value: u64)
    requires
        offset + 8 <= source@.len(),
    ensures
        value == le_at(source@, offset as int, 8),
{
    let length: usize = source.len();
    let low: u32 = read_u32(source, offset);
    let high: u32 = read_u32(source, offset + 4);
    reveal_with_fuel(le_at, 5);
    low as u64 + 0x1_0000_0000 * (high as u64)
}

/// How many values fit in one, two, four and eight bytes.
pub proof fn lemma_byte_ranges()
    ensures
        byte_range(1) == 0x100,
        byte_range(2) == 0x1_0000,
        byte_range(4) == 0x1_0000_0000,
        byte_range(8) == 0x1_0000_0000_0000_0000,
{
    reveal_with_fuel(byte_range, 9);
}

} // verus!
