//! The serial line: what goes over the wire for a text.
use crate::ports::PortWrite;
use crate::text;
use vstd::prelude::*;

verus! {

/// The port of the first serial line, at which its data goes out.
pub const COM1: u16 = 0x3f8;

/// The port that tells whether the line takes another byte.
pub const LINE_STATUS: u16 = 0x3fd;

/// The bytes that go over the wire for one byte of text: a line feed takes a carriage return
/// with it.
pub open spec fn wire_byte(byte: u8) -> Seq<u8> {
    if byte == 0x0a {
        seq![0x0du8, 0x0au8]
    } else {
        seq![byte]
    }
}

/// The bytes that go over the wire for a text.
pub open spec fn wire(bytes: Seq<u8>) -> Seq<u8>
    decreases bytes.len(),
{
    if bytes.len() == 0 {
        Seq::empty()
    } else {
        wire(bytes.drop_last()) + wire_byte(bytes.last())
    }
}

/// The writes that set the line up, in order: no interrupts, the divisor for 38400 baud, eight
/// bits without parity, cleared buffers, and the modem lines.
pub fn init() -> (r: [PortWrite; 7])
    ensures
        r@ == seq![
            PortWrite { port: 0x3f9, value: 0x00 },
            PortWrite { port: 0x3fb, value: 0x80 },
            PortWrite { port: 0x3f8, value: 0x03 },
            PortWrite { port: 0x3f9, value: 0x00 },
            PortWrite { port: 0x3fb, value: 0x03 },
            PortWrite { port: 0x3fa, value: 0xc7 },
            PortWrite { port: 0x3fc, value: 0x0b },
        ],
{
    let interrupt_enable: u16 = COM1 + 1;
    let fifo_control: u16 = COM1 + 2;
    let line_control: u16 = COM1 + 3;
    let modem_control: u16 = COM1 + 4;
    let writes = [
        PortWrite { port: interrupt_enable, value: 0x00 },
        PortWrite { port: line_control, value: 0x80 },
        PortWrite { port: COM1, value: 0x03 },
        PortWrite { port: interrupt_enable, value: 0x00 },
        PortWrite { port: line_control, value: 0x03 },
        PortWrite { port: fifo_control, value: 0xc7 },
        PortWrite { port: modem_control, value: 0x0b },
    ];
    assert(writes@ =~= seq![
        PortWrite { port: 0x3f9, value: 0x00 },
        PortWrite { port: 0x3fb, value: 0x80 },
        PortWrite { port: 0x3f8, value: 0x03 },
        PortWrite { port: 0x3f9, value: 0x00 },
        PortWrite { port: 0x3fb, value: 0x03 },
        PortWrite { port: 0x3fa, value: 0xc7 },
        PortWrite { port: 0x3fc, value: 0x0b },
    ]);
    writes
}

/// The bytes for a text.
pub fn serial_print(s: &str) -> (r: Vec<u8>)
    ensures
        r@ == wire(vstd::utf8::encode_utf8(s@)),
{
    serial_print_bytes(s.as_bytes())
}

/// The bytes for a byte string.
pub fn serial_print_bytes(bytes: &[u8]) -> (r: Vec<u8>)
    ensures
        r@ == wire(bytes@),
{
    let mut out: Vec<u8> = Vec::new();
    let mut index: usize = 0;
    while index < bytes.len()
        invariant
            index <= bytes@.len(),
            out@ == wire(bytes@.take(index as int)),
        decreases bytes@.len() - index,
    {
        assert(bytes@.take(index + 1).drop_last() =~= bytes@.take(index as int));
        let sent: Vec<u8> = write_byte(bytes[index]);
        text::append_bytes(&mut out, &sent);
        index = index + 1;
    }
    assert(bytes@.take(index as int) =~= bytes@);
    out
}

/// The bytes for a text and the end of the line.
pub fn serial_println(s: &str) -> (r: Vec<u8>)
    ensures
        r@ == wire(vstd::utf8::encode_utf8(s@)) + seq![0x0du8, 0x0au8],
{
    let mut out: Vec<u8> = serial_print(s);
    let line_end: Vec<u8> = write_byte(0x0a);
    text::append_bytes(&mut out, &line_end);
    out
}

/// The bytes for one byte of text.
pub fn write_byte(byte: u8) -> (r: Vec<u8>)
    ensures
        r@ == wire_byte(byte),
{
    let mut out: Vec<u8> = Vec::new();
    if byte == 0x0a {
        out.push(0x0d);
        out.push(0x0a);
    } else {
        out.push(byte);
    }
    assert(out@ =~= wire_byte(byte));
    out
}

/// Whether the line takes another byte, going by its status: bit 5.
pub fn transmitter_ready(line_status: u8) -> (r: bool)
    ensures
        r == ((line_status / 32) % 2 == 1),
{
    assert((line_status & 0x20 != 0) == ((line_status / 32) % 2 == 1)) by (bit_vector);
    line_status & 0x20 != 0
}

/// Texts printed one after the other come out like their concatenation.
pub proof fn law_prints_concatenate(left: Seq<u8>, right: Seq<u8>)
    ensures
        wire(left + right) == wire(left) + wire(right),
    decreases right.len(),
{
    if right.len() == 0 {
        assert(left + right =~= left);
        assert(wire(left) + wire(right) =~= wire(left));
    } else {
        assert((left + right).drop_last() =~= left + right.drop_last());
        law_prints_concatenate(left, right.drop_last());
        assert(wire(left + right) =~= wire(left) + wire(right));
    }
}

/// A line feed never goes out without a carriage return before it.
pub proof fn law_line_feeds_follow_carriage_returns(bytes: Seq<u8>, at: int)
    requires
        0 <= at < wire(bytes).len(),
        wire(bytes)[at] == 0x0a,
    ensures
        at > 0,
        wire(bytes)[at - 1] == 0x0d,
    decreases bytes.len(),
{
    if bytes.len() > 0 {
        let before = wire(bytes.drop_last());
        if at < before.len() {
            law_line_feeds_follow_carriage_returns(bytes.drop_last(), at);
        }
    }
}

/// Bytes other than line feeds go out as they are, and a line feed goes out behind a carriage
/// return.
pub proof fn law_only_line_feeds_change(bytes: Seq<u8>)
    ensures
        (forall|i: int| 0 <= i < bytes.len() ==> #[trigger] bytes[i] != 0x0a) ==> wire(bytes)
            == bytes,
        wire(seq![0x0au8]) == seq![0x0du8, 0x0au8],
    decreases bytes.len(),
{
    let feed = seq![0x0au8];
    assert(feed.drop_last() =~= Seq::<u8>::empty());
    assert(wire(feed.drop_last()) =~= Seq::<u8>::empty());
    assert(wire(feed) =~= seq![0x0du8, 0x0au8]);
    if bytes.len() > 0 {
        law_only_line_feeds_change(bytes.drop_last());
        if forall|i: int| 0 <= i < bytes.len() ==> #[trigger] bytes[i] != 0x0a {
            assert forall|i: int| 0 <= i < bytes.len() - 1 implies #[trigger] bytes.drop_last()[i]
                != 0x0a by {
                assert(bytes[i] != 0x0a);
            }
            assert(bytes[bytes.len() - 1] != 0x0a);
            assert(wire(bytes) =~= bytes);
        }
    } else {
        assert(wire(bytes) =~= bytes);
    }
}

} // verus!
