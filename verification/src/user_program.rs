//! The first user program: a small ELF image that is put together here.
use crate::{bits, bytes, elf, elf_load, paging};
use vstd::prelude::*;

verus! {

pub const INIT_EXPECTED_EXIT_CODE: u64 = 42;

pub const INIT_MINIMUM_SYSCALLS: u64 = 4;

/// The first instruction of the program.
pub const INIT_TEXT_SIGNATURE: [u8; 10] = [
    0x48,
    0xb8,
    0x01,
    0x00,
    0x00,
    0x00,
    0x00,
    0x00,
    0x00,
    0x00,
];

/// `Tobacco init`, with which the program's data starts.
pub const INIT_DATA_SIGNATURE: [u8; 12] = [
    0x54,
    0x6f,
    0x62,
    0x61,
    0x63,
    0x63,
    0x6f,
    0x20,
    0x69,
    0x6e,
    0x69,
    0x74,
];

pub const INIT_BSS_PROBE_OFFSET: u64 = 128;

const ELF_HEADER_SIZE: usize = 64;

const PROGRAM_HEADER_SIZE: usize = 56;

const TEXT_OFFSET: usize = 0x1000;

const DATA_OFFSET: usize = 0x2000;

/// The machine code: a few system calls, the last of which ends the program.
pub const INIT_CODE: [u8; 71] = [
    0x48, 0xb8, 0x01, 0x00, 0x00, 0x00, 0x00, 0x00, 0x00, 0x00, 0x48, 0xbf, 0x01, 0x00, 0x00, 0x00,
    0x00, 0x00, 0x00, 0x00, 0xcd, 0x80, 0x48, 0xb8, 0x04, 0x00, 0x00, 0x00, 0x00, 0x00, 0x00, 0x00,
    0xcd, 0x80, 0x48, 0xb8, 0x02, 0x00, 0x00, 0x00, 0x00, 0x00, 0x00, 0x00, 0xcd, 0x80, 0x48, 0xb8,
    0x03, 0x00, 0x00, 0x00, 0x00, 0x00, 0x00, 0x00, 0x48, 0xbf, 0x2a, 0x00, 0x00, 0x00, 0x00, 0x00,
    0x00, 0x00, 0xcd, 0x80, 0xf4, 0xeb, 0xfd,
];

pub const INIT_DATA: [u8; 16] = [
    0x54, 0x6f, 0x62, 0x61, 0x63, 0x63, 0x6f, 0x20, 0x69, 0x6e, 0x69, 0x74, 0x00, 0x00, 0x00, 0x00,
];

pub const INIT_ELF_SIZE: usize = 0x2010;

/// `image` with a number of `width` bytes put at `at`.
pub open spec fn put(image: Seq<u8>, at: int, value: nat, width: nat) -> Seq<u8> {
    bytes::overwrite(image, at, bytes::le_bytes(value, width))
}

/// `image` with the ELF header of an x86-64 executable that starts at `USER_ELF_BASE` and has
/// two program headers behind its ELF header.
pub open spec fn with_elf_header(image: Seq<u8>) -> Seq<u8> {
    let ident = bytes::overwrite(
        image,
        0,
        seq![0x7fu8, 0x45u8, 0x4cu8, 0x46u8, 2u8, 1u8, 1u8],
    );
    let kind = put(put(put(ident, 16, 2, 2), 18, 62, 2), 20, 1, 4);
    let places = put(put(kind, 24, paging::USER_ELF_BASE as nat, 8), 32, 64, 8);
    put(put(put(places, 52, 64, 2), 54, 56, 2), 56, 2, 2)
}

/// `image` with a header at `at` for a segment to load.
pub open spec fn with_program_header(
    image: Seq<u8>,
    at: int,
    flags: nat,
    file_offset: nat,
    address: nat,
    file_size: nat,
    memory_size: nat,
) -> Seq<u8> {
    let kind = put(put(image, at, 1, 4), at + 4, flags, 4);
    let places = put(put(kind, at + 8, file_offset, 8), at + 16, address, 8);
    let sizes = put(put(places, at + 32, file_size, 8), at + 40, memory_size, 8);
    put(sizes, at + 48, 4096, 8)
}

/// The image of the first user program: a readable and executable segment with the code, a
/// readable and writable one of a page with the data, and zeros everywhere else.
pub open spec fn init_image() -> Seq<u8> {
    let base = paging::USER_ELF_BASE as nat;
    let zeros = Seq::new(0x2010, |i: int| 0u8);
    let headed = with_elf_header(zeros);
    let text = with_program_header(headed, 64, 5, 0x1000, base, 71, 71);
    let data = with_program_header(text, 120, 6, 0x2000, base + 4096, 16, 4096);
    bytes::overwrite(bytes::overwrite(data, 0x1000, INIT_CODE@), 0x2000, INIT_DATA@)
}

fn put_bytes(image: &mut [u8], offset: usize, data: &[u8])
    requires
        offset + data@.len() <= old(image)@.len(),
    ensures
        final(image)@ == bytes::overwrite(old(image)@, offset as int, data@),
{
    let length: usize = image.len();
    let ghost before = image@;
    let mut index: usize = 0;
    while index < data.len()
        invariant
            length == image@.len(),
            length == before.len(),
            offset + data@.len() <= length,
            index <= data@.len(),
            forall|i: int|
                0 <= i < length ==> #[trigger] image@[i] == if offset <= i < offset + index {
                    data@[i - offset]
                } else {
                    before[i]
                },
        decreases data@.len() - index,
    {
        image[offset + index] = data[index];
        index = index + 1;
    }
    assert(image@ =~= bytes::overwrite(before, offset as int, data@));
}

fn put_elf_header(image: &mut [u8])
    requires
        old(image)@.len() == INIT_ELF_SIZE,
    ensures
        final(image)@ == with_elf_header(old(image)@),
{
    let ident: [u8; 7] = [0x7f, 0x45, 0x4c, 0x46, 2, 1, 1];
    assert(ident@ =~= seq![0x7fu8, 0x45u8, 0x4cu8, 0x46u8, 2u8, 1u8, 1u8]);
    put_bytes(image, 0, &ident);
    bytes::write_u16(image, 16, 2);
    bytes::write_u16(image, 18, 62);
    bytes::write_u32(image, 20, 1);
    bytes::write_u64(image, 24, paging::USER_ELF_BASE);
    bytes::write_u64(image, 32, ELF_HEADER_SIZE as u64);
    bytes::write_u16(image, 52, ELF_HEADER_SIZE as u16);
    bytes::write_u16(image, 54, PROGRAM_HEADER_SIZE as u16);
    bytes::write_u16(image, 56, 2);
}

fn put_program_header(
    image: &mut [u8],
    at: usize,
    flags: u32,
    file_offset: u64,
    address: u64,
    file_size: u64,
    memory_size: u64,
)
    requires
        at + 56 <= old(image)@.len(),
        old(image)@.len() == INIT_ELF_SIZE,
    ensures
        final(image)@ == with_program_header(
            old(image)@,
            at as int,
            flags as nat,
            file_offset as nat,
            address as nat,
            file_size as nat,
            memory_size as nat,
        ),
{
    bytes::write_u32(image, at, 1);
    bytes::write_u32(image, at + 4, flags);
    bytes::write_u64(image, at + 8, file_offset);
    bytes::write_u64(image, at + 16, address);
    bytes::write_u64(image, at + 32, file_size);
    bytes::write_u64(image, at + 40, memory_size);
    bytes::write_u64(image, at + 48, paging::PAGE_SIZE_4K);
}

/// Puts the first user program into a blank image.
pub(crate) fn fill_init_elf(image: &mut [u8])
    requires
        old(image)@ == Seq::new(0x2010, |i: int| 0u8),
    ensures
        final(image)@ == init_image(),
{
    let base: u64 = paging::USER_ELF_BASE;
    put_elf_header(image);
    put_program_header(image, ELF_HEADER_SIZE, 5, TEXT_OFFSET as u64, base, 71, 71);
    put_program_header(
        image,
        ELF_HEADER_SIZE + PROGRAM_HEADER_SIZE,
        6,
        DATA_OFFSET as u64,
        base + paging::PAGE_SIZE_4K,
        16,
        paging::PAGE_SIZE_4K,
    );
    put_bytes(image, TEXT_OFFSET, &INIT_CODE);
    put_bytes(image, DATA_OFFSET, &INIT_DATA);
}

/// The image of the first user program.
pub fn build_init_elf() -> (image: [u8; INIT_ELF_SIZE])
    ensures
        image@ == init_image(),
{
    let mut image: [u8; INIT_ELF_SIZE] = [0; INIT_ELF_SIZE];
    assert(image@ =~= Seq::new(0x2010, |i: int| 0u8));
    fill_init_elf(&mut image);
    image
}

/// The segment with the code.
pub open spec fn text_segment() -> elf::SegmentPlan {
    elf::SegmentPlan {
        file_offset: 0x1000,
        virtual_address: paging::USER_ELF_BASE,
        file_size: 71,
        memory_size: 71,
        writable: false,
        executable: true,
    }
}

/// The segment with the data.
pub open spec fn data_segment() -> elf::SegmentPlan {
    elf::SegmentPlan {
        file_offset: 0x2000,
        virtual_address: (paging::USER_ELF_BASE + 4096) as u64,
        file_size: 16,
        memory_size: 4096,
        writable: true,
        executable: false,
    }
}

proof fn lemma_with_elf_header(image: Seq<u8>)
    requires
        image.len() == 0x2010,
    ensures
        with_elf_header(image).len() == 0x2010,
        with_elf_header(image).take(7) == seq![0x7fu8, 0x45u8, 0x4cu8, 0x46u8, 2u8, 1u8, 1u8],
        bytes::le_at(with_elf_header(image), 16, 2) == 2,
        bytes::le_at(with_elf_header(image), 18, 2) == 62,
        bytes::le_at(with_elf_header(image), 20, 4) == 1,
        bytes::le_at(with_elf_header(image), 24, 8) == paging::USER_ELF_BASE,
        bytes::le_at(with_elf_header(image), 32, 8) == 64,
        bytes::le_at(with_elf_header(image), 52, 2) == 64,
        bytes::le_at(with_elf_header(image), 54, 2) == 56,
        bytes::le_at(with_elf_header(image), 56, 2) == 2,
{
    broadcast use bytes::lemma_le_at_overwrite_same, bytes::lemma_le_at_overwrite_other;

    bytes::lemma_byte_ranges();
    bytes::lemma_le_bytes_len(2, 2);
    bytes::lemma_le_bytes_len(62, 2);
    bytes::lemma_le_bytes_len(1, 4);
    bytes::lemma_le_bytes_len(paging::USER_ELF_BASE as nat, 8);
    bytes::lemma_le_bytes_len(64, 8);
    bytes::lemma_le_bytes_len(64, 2);
    bytes::lemma_le_bytes_len(56, 2);
    assert(with_elf_header(image).take(7) =~= seq![
        0x7fu8,
        0x45u8,
        0x4cu8,
        0x46u8,
        2u8,
        1u8,
        1u8,
    ]);
}

proof fn lemma_with_program_header(
    image: Seq<u8>,
    at: int,
    flags: nat,
    file_offset: nat,
    address: nat,
    file_size: nat,
    memory_size: nat,
)
    requires
        image.len() == 0x2010,
        0 <= at,
        at + 56 <= 0x1000,
        flags < 8,
        file_offset < 0x1_0000_0000,
        address < 0x1_0000_0000,
        file_size < 0x1_0000_0000,
        memory_size < 0x1_0000_0000,
    ensures
        ({
            let r = with_program_header(
                image,
                at,
                flags,
                file_offset,
                address,
                file_size,
                memory_size,
            );
            &&& r.len() == 0x2010
            &&& bytes::le_at(r, at, 4) == 1
            &&& bytes::le_at(r, at + 4, 4) == flags
            &&& bytes::le_at(r, at + 8, 8) == file_offset
            &&& bytes::le_at(r, at + 16, 8) == address
            &&& bytes::le_at(r, at + 32, 8) == file_size
            &&& bytes::le_at(r, at + 40, 8) == memory_size
            &&& bytes::le_at(r, at + 48, 8) == 4096
            &&& forall|i: int|
                (0 <= i < at || at + 56 <= i < 0x2010) ==> #[trigger] r[i] == image[i]
        }),
{
    broadcast use bytes::lemma_le_at_overwrite_same, bytes::lemma_le_at_overwrite_other;

    bytes::lemma_byte_ranges();
    bytes::lemma_le_bytes_len(1, 4);
    bytes::lemma_le_bytes_len(flags, 4);
    bytes::lemma_le_bytes_len(file_offset, 8);
    bytes::lemma_le_bytes_len(address, 8);
    bytes::lemma_le_bytes_len(file_size, 8);
    bytes::lemma_le_bytes_len(memory_size, 8);
    bytes::lemma_le_bytes_len(4096, 8);
}

/// What the image of the first user program says of itself.
#[verifier::rlimit(40)]
pub proof fn lemma_init_image()
    ensures
        init_image().len() == 0x2010,
        elf::header_error(init_image()) is None,
        elf::header_count(init_image()) == 2,
        elf::entry_of(init_image()) == paging::USER_ELF_BASE,
        elf::header_at(init_image(), 0) == (elf::ProgramHeader {
            kind: 1,
            flags: 5,
            file_offset: 0x1000,
            virtual_address: paging::USER_ELF_BASE as nat,
            file_size: 71,
            memory_size: 71,
            alignment: 4096,
        }),
        elf::header_at(init_image(), 1) == (elf::ProgramHeader {
            kind: 1,
            flags: 6,
            file_offset: 0x2000,
            virtual_address: (paging::USER_ELF_BASE + 4096) as nat,
            file_size: 16,
            memory_size: 4096,
            alignment: 4096,
        }),
{
    let base = paging::USER_ELF_BASE as nat;
    let zeros = Seq::new(0x2010, |i: int| 0u8);
    let headed = with_elf_header(zeros);
    let text = with_program_header(headed, 64, 5, 0x1000, base, 71, 71);
    let data = with_program_header(text, 120, 6, 0x2000, base + 4096, 16, 4096);
    let image = init_image();
    lemma_with_elf_header(zeros);
    lemma_with_program_header(headed, 64, 5, 0x1000, base, 71, 71);
    lemma_with_program_header(text, 120, 6, 0x2000, base + 4096, 16, 4096);
    assert forall|i: int| 0 <= i < 120 implies #[trigger] image[i] == text[i] by {
        assert(data[i] == text[i]);
    }
    assert forall|i: int| 120 <= i < 176 implies #[trigger] image[i] == data[i] by {}
    assert forall|i: int| 0 <= i < 64 implies #[trigger] image[i] == headed[i] by {
        assert(text[i] == headed[i]);
    }
    assert forall|at: int, width: nat| 0 <= at && at + width <= 64 implies #[trigger] bytes::le_at(
        image,
        at,
        width,
    ) == bytes::le_at(headed, at, width) by {
        bytes::lemma_le_at_frame(image, at, headed, at, width);
    }
    assert forall|at: int, width: nat| 0 <= at && at + width <= 120 implies #[trigger] bytes::le_at(
        image,
        at,
        width,
    ) == bytes::le_at(text, at, width) by {
        bytes::lemma_le_at_frame(image, at, text, at, width);
    }
    assert forall|at: int, width: nat|
        120 <= at && at + width <= 176 implies #[trigger] bytes::le_at(image, at, width)
        == bytes::le_at(data, at, width) by {
        bytes::lemma_le_at_frame(image, at, data, at, width);
    }
    assert forall|i: int| 0 <= i < 7 implies image[i] == headed.take(7)[i] by {
        assert(image[i] == headed[i]);
    }
    assert(image.take(4) =~= seq![0x7fu8, 0x45u8, 0x4cu8, 0x46u8]);
}

/// A header whose two places are both at the start of a page is aligned to pages.
proof fn lemma_aligned(header: elf::ProgramHeader)
    requires
        header.alignment == 4096,
        header.virtual_address as int % 4096 == 0,
        header.file_offset as int % 4096 == 0,
    ensures
        header.aligned(),
{
    bits::lemma_small_pow2();
}

/// The loader accepts the first user program wherever the user region holds its two pages, and
/// makes of it a page of code at the entry point and a page of data behind that.
#[verifier::rlimit(40)]
pub proof fn law_init_program_is_accepted(layout: paging::UserLayout)
    requires
        layout.base <= paging::USER_ELF_BASE,
        paging::USER_ELF_BASE + 2 * 4096 <= layout.end,
    ensures
        elf::load_plan(init_image(), layout) == Ok::<Seq<elf::SegmentPlan>, elf::LoadError>(
            seq![text_segment(), data_segment()],
        ),
        elf::entry_of(init_image()) == paging::USER_ELF_BASE,
        elf::total_pages(seq![text_segment(), data_segment()]) == 2,
{
    lemma_init_image();
    bits::lemma_small_pow2();
    let image = init_image();
    let text = text_segment();
    let data = data_segment();
    let none = Seq::<elf::SegmentPlan>::empty();
    let one = none.push(text);
    let both = one.push(data);
    assert(one.drop_last() =~= none);
    assert(both.drop_last() =~= one);
    assert(both =~= seq![text, data]);
    assert(text.page_count() == 1);
    assert(data.page_count() == 1);
    reveal_with_fuel(elf::total_pages, 3);
    reveal_with_fuel(elf::scan_headers, 3);
    assert(elf::header_at(image, 0).segment() == text);
    assert(elf::header_at(image, 1).segment() == data);
    lemma_aligned(elf::header_at(image, 0));
    lemma_aligned(elf::header_at(image, 1));
    assert(elf::scan_headers(image, layout, 1) == Ok::<Seq<elf::SegmentPlan>, elf::LoadError>(one));
    assert(!data.overlaps(one[0]));
    assert(elf::scan_headers(image, layout, 2) == Ok::<Seq<elf::SegmentPlan>, elf::LoadError>(
        both,
    ));
    assert(both[0].executable && both[0].covers(elf::entry_of(image)));
}

/// The image holds the signatures that the loader's own test looks for: the code's first
/// instruction at the start of the code, the data's name at the start of the data, and a byte
/// past the data in the file, which the loader has to blank.
#[verifier::rlimit(40)]
pub proof fn law_init_program_has_its_signatures()
    ensures
        init_image().subrange(0x1000, 0x100a) == INIT_TEXT_SIGNATURE@,
        init_image().subrange(0x2000, 0x200c) == INIT_DATA_SIGNATURE@,
        text_segment().file_offset == 0x1000,
        data_segment().file_offset == 0x2000,
        data_segment().file_size <= INIT_BSS_PROBE_OFFSET < data_segment().memory_size,
{
    lemma_init_image();
    let image = init_image();
    assert(image.subrange(0x1000, 0x100a) =~= INIT_TEXT_SIGNATURE@);
    assert(image.subrange(0x2000, 0x200c) =~= INIT_DATA_SIGNATURE@);
}

/// Loading the first user program takes three pages: its code, its data and its stack. Two of
/// them are writable, one is executable. These are the numbers that the loader's test expects.
pub proof fn law_init_program_takes_three_pages(layout: paging::UserLayout)
    ensures
        elf_load::requests(seq![text_segment(), data_segment()], layout).len() == 3,
        elf_load::writable_count(
            elf_load::requests(seq![text_segment(), data_segment()], layout),
        ) == 2,
        elf_load::executable_count(
            elf_load::requests(seq![text_segment(), data_segment()], layout),
        ) == 1,
{
    let parts = seq![text_segment(), data_segment()];
    let one = parts.drop_last();
    let none = Seq::<elf::SegmentPlan>::empty();
    assert(one =~= seq![text_segment()]);
    assert(one.drop_last() =~= none);
    assert(text_segment().page_count() == 1);
    assert(data_segment().page_count() == 1);
    let text = elf_load::part_pages(text_segment());
    let data = elf_load::part_pages(data_segment());
    assert(elf_load::all_pages(none) =~= Seq::empty());
    assert(elf_load::all_pages(one) =~= text);
    assert(elf_load::all_pages(parts) =~= text + data);
    let pages = elf_load::requests(parts, layout);
    assert(pages.drop_last() =~= text + data);
    assert(pages.drop_last().drop_last() =~= text);
    assert(text.drop_last() =~= Seq::empty());
    reveal_with_fuel(elf_load::count_pages, 4);
}

/// What is loaded of the first user program is its code, at the entry point and executable, and
/// its data, in a page of its own behind the code and writable.
#[verifier::rlimit(40)]
pub proof fn law_init_program_loads_code_and_data(layout: paging::UserLayout)
    requires
        layout.base <= paging::USER_ELF_BASE,
        paging::USER_ELF_BASE + 2 * 4096 <= layout.end,
    ensures
        ({
            let image = init_image();
            let parts = elf::load_plan(image, layout)->Ok_0;
            let (text, data) = (parts[0], parts[1]);
            &&& elf::load_plan(image, layout) is Ok
            &&& parts.len() == 2
            &&& image.subrange(text.file_offset as int, text.file_offset + text.file_size)
                == INIT_CODE@
            &&& image.subrange(data.file_offset as int, data.file_offset + data.file_size)
                == INIT_DATA@
            &&& text.virtual_address == elf::entry_of(image)
            &&& text.virtual_address == paging::USER_ELF_BASE
            &&& text.memory_size == INIT_CODE@.len()
            &&& data.virtual_address == text.virtual_address + 4096
            &&& data.memory_size == 4096
            &&& text.executable && !text.writable
            &&& data.writable && !data.executable
        }),
{
    law_init_program_is_accepted(layout);
    lemma_code_and_data();
    let parts = seq![text_segment(), data_segment()];
    assert(parts[0] == text_segment() && parts[1] == data_segment());
}

/// Where the code and the data stand in the image.
#[verifier::rlimit(40)]
proof fn lemma_code_and_data()
    ensures
        init_image().subrange(0x1000, 0x1047) == INIT_CODE@,
        init_image().subrange(0x2000, 0x2010) == INIT_DATA@,
{
    lemma_init_image();
    lemma_overwritten(init_image_headers(), INIT_CODE@, INIT_DATA@);
}

/// The image with its headers, before code and data were put into it.
spec fn init_image_headers() -> Seq<u8> {
    let base = paging::USER_ELF_BASE as nat;
    let headed = with_elf_header(Seq::new(0x2010, |i: int| 0u8));
    let text = with_program_header(headed, 64, 5, 0x1000, base, 71, 71);
    with_program_header(text, 120, 6, 0x2000, base + 4096, 16, 4096)
}

proof fn lemma_overwritten(before: Seq<u8>, code: Seq<u8>, data: Seq<u8>)
    requires
        before.len() == 0x2010,
        code.len() == 0x47,
        data.len() == 0x10,
    ensures
        ({
            let image = bytes::overwrite(bytes::overwrite(before, 0x1000, code), 0x2000, data);
            &&& image.subrange(0x1000, 0x1047) == code
            &&& image.subrange(0x2000, 0x2010) == data
        }),
{
    let image = bytes::overwrite(bytes::overwrite(before, 0x1000, code), 0x2000, data);
    assert(image.subrange(0x1000, 0x1047) =~= code);
    assert(image.subrange(0x2000, 0x2010) =~= data);
}

} // verus!
