//! Which bytes of an image decide what is loaded, and with which rights.
use crate::elf::{LoadError, SegmentPlan};
use crate::elf_copy_laws as copies;
use crate::{bytes, elf, elf_laws, paging};
use vstd::prelude::*;

verus! {

/// The number in two bytes, the lower one first.
pub open spec fn u16_at(s: Seq<u8>, at: int) -> int {
    s[at] + 0x100 * s[at + 1]
}

/// The number in four bytes, the lowest one first.
#[verifier::opaque]
pub open spec fn u32_at(s: Seq<u8>, at: int) -> int {
    s[at] + 0x100 * s[at + 1] + 0x1_0000 * s[at + 2] + 0x100_0000 * s[at + 3]
}

/// The number in eight bytes, the lowest one first.
#[verifier::opaque]
pub open spec fn u64_at(s: Seq<u8>, at: int) -> int {
    u32_at(s, at) + 0x1_0000_0000 * u32_at(s, at + 4)
}

/// Numbers are read with their lowest byte first.
pub proof fn law_numbers_are_little_endian(s: Seq<u8>, at: int)
    ensures
        bytes::le_at(s, at, 2) == u16_at(s, at),
        bytes::le_at(s, at, 4) == u32_at(s, at),
        bytes::le_at(s, at, 8) == u64_at(s, at),
        0 <= u16_at(s, at) <= u16::MAX,
        0 <= u32_at(s, at) <= u32::MAX,
        0 <= u64_at(s, at) <= u64::MAX,
{
    reveal(u32_at);
    reveal(u64_at);
    reveal_with_fuel(bytes::le_at, 9);
}

/// Where program header `i` starts.
pub open spec fn header_place(image: Seq<u8>, i: int) -> int {
    u64_at(image, 32) + 56 * i
}

/// Where the contents of header `i` stand in the image.
pub open spec fn file_place(image: Seq<u8>, i: int) -> int {
    u64_at(image, header_place(image, i) + 8)
}

/// The address at which the memory of header `i` starts.
pub open spec fn memory_place(image: Seq<u8>, i: int) -> int {
    u64_at(image, header_place(image, i) + 16)
}

/// How many bytes of the image header `i` asks for.
pub open spec fn file_bytes(image: Seq<u8>, i: int) -> int {
    u64_at(image, header_place(image, i) + 32)
}

/// How many bytes of memory header `i` asks for.
pub open spec fn memory_bytes(image: Seq<u8>, i: int) -> int {
    u64_at(image, header_place(image, i) + 40)
}

/// The alignment that header `i` names.
pub open spec fn alignment_of(image: Seq<u8>, i: int) -> int {
    u64_at(image, header_place(image, i) + 48)
}

/// The lowest byte of the flags of header `i`.
pub open spec fn flags_of(image: Seq<u8>, i: int) -> u8 {
    image[header_place(image, i) + 4]
}

/// Header `i` is for memory that is there at run time.
pub open spec fn is_for_memory(image: Seq<u8>, i: int) -> bool {
    u32_at(image, header_place(image, i)) == 1
}

/// Header `i` asks for memory, and for some of it.
pub open spec fn asks(image: Seq<u8>, i: int) -> bool {
    is_for_memory(image, i) && memory_bytes(image, i) != 0
}

/// The headers among the first `count` that ask for memory, in order.
pub open spec fn asking(image: Seq<u8>, count: nat) -> Seq<int>
    decreases count,
{
    if count == 0 {
        Seq::empty()
    } else {
        let rest = asking(image, (count - 1) as nat);
        if asks(image, count - 1) {
            rest.push(count - 1)
        } else {
            rest
        }
    }
}

/// `part` is what header `i` asks for: the places and sizes that its fields name, writable where
/// bit one of its flags is set, and executable where bit zero is.
pub open spec fn planned_from(part: SegmentPlan, image: Seq<u8>, i: int) -> bool {
    &&& part.file_offset == file_place(image, i)
    &&& part.virtual_address == memory_place(image, i)
    &&& part.file_size == file_bytes(image, i)
    &&& part.memory_size == memory_bytes(image, i)
    &&& part.writable <==> flags_of(image, i) & 2 != 0
    &&& part.executable <==> flags_of(image, i) & 1 != 0
}

proof fn lemma_flags(low: u8, flags: nat, rest: nat)
    requires
        flags == low + 256 * rest,
    ensures
        (flags / 4) % 2 == 1 <==> low & 4 != 0,
        (flags / 2) % 2 == 1 <==> low & 2 != 0,
        flags % 2 == 1 <==> low & 1 != 0,
{
    assert(low & 4 != 0 <==> (low / 4) % 2 == 1) by (bit_vector);
    assert(low & 2 != 0 <==> (low / 2) % 2 == 1) by (bit_vector);
    assert(low & 1 != 0 <==> low % 2 == 1) by (bit_vector);
    assert(flags / 4 == low / 4 + 64 * rest);
    assert(flags / 2 == low / 2 + 128 * rest);
}

#[verifier::rlimit(40)]
proof fn lemma_header(image: Seq<u8>, i: int)
    ensures
        ({
            let header = elf::header_at(image, i);
            &&& header.kind == u32_at(image, header_place(image, i))
            &&& header.is_load() == is_for_memory(image, i)
            &&& header.file_offset == file_place(image, i)
            &&& header.virtual_address == memory_place(image, i)
            &&& header.file_size == file_bytes(image, i)
            &&& header.memory_size == memory_bytes(image, i)
            &&& header.alignment == alignment_of(image, i)
            &&& header.readable() <==> flags_of(image, i) & 4 != 0
            &&& header.writable() <==> flags_of(image, i) & 2 != 0
            &&& header.executable() <==> flags_of(image, i) & 1 != 0
            &&& planned_from(header.segment(), image, i)
        }),
{
    let at = header_place(image, i);
    law_numbers_are_little_endian(image, 32);
    assert(elf::header_start(image, i) == at);
    law_numbers_are_little_endian(image, at);
    law_numbers_are_little_endian(image, at + 4);
    law_numbers_are_little_endian(image, at + 8);
    law_numbers_are_little_endian(image, at + 16);
    law_numbers_are_little_endian(image, at + 32);
    law_numbers_are_little_endian(image, at + 40);
    law_numbers_are_little_endian(image, at + 48);
    let rest = image[at + 5] + 0x100 * image[at + 6] + 0x1_0000 * image[at + 7];
    assert(u32_at(image, at + 4) == image[at + 4] + 256 * rest) by {
        reveal(u32_at);
    }
    lemma_flags(image[at + 4], elf::header_at(image, i).flags, rest as nat);
}

#[verifier::rlimit(40)]
proof fn lemma_asking(image: Seq<u8>, count: nat)
    ensures
        elf_laws::wanted_parts(image, count).len() == asking(image, count).len(),
        forall|k: int|
            0 <= k < asking(image, count).len() ==> planned_from(
                #[trigger] elf_laws::wanted_parts(image, count)[k],
                image,
                asking(image, count)[k],
            ),
        forall|k: int|
            0 <= k < asking(image, count).len() ==> 0 <= #[trigger] asking(image, count)[k] < count
                && asks(image, asking(image, count)[k]),
        forall|i: int|
            #![trigger asks(image, i)]
            0 <= i < count && asks(image, i) ==> asking(image, count).contains(i),
        forall|k: int, l: int|
            0 <= k < l < asking(image, count).len() ==> #[trigger] asking(image, count)[k]
                < #[trigger] asking(image, count)[l],
    decreases count,
{
    if count > 0 {
        let less = (count - 1) as nat;
        lemma_asking(image, less);
        lemma_header(image, count - 1);
        let rest = asking(image, less);
        let more = asking(image, count);
        let parts = elf_laws::wanted_parts(image, less);
        let all = elf_laws::wanted_parts(image, count);
        assert forall|k: int| 0 <= k < more.len() implies planned_from(
            #[trigger] all[k],
            image,
            more[k],
        ) by {
            if k < rest.len() {
                assert(planned_from(parts[k], image, rest[k]));
            }
        }
        assert forall|k: int| 0 <= k < more.len() implies 0 <= #[trigger] more[k] < count && asks(
            image,
            more[k],
        ) by {
            if k < rest.len() {
                assert(more[k] == rest[k]);
            }
        }
        assert forall|i: int|
            #![trigger asks(image, i)]
            0 <= i < count && asks(image, i) implies more.contains(i) by {
            if i < less {
                assert(rest.contains(i));
                let k = choose|k: int| 0 <= k < rest.len() && rest[k] == i;
                assert(more[k] == i);
            } else {
                assert(more[rest.len() as int] == i);
            }
        }
        assert forall|k: int, l: int| 0 <= k < l < more.len() implies #[trigger] more[k]
            < #[trigger] more[l] by {
            assert(more[k] == rest[k]);
            if l < rest.len() {
                assert(more[l] == rest[l]);
            }
        }
    }
}

/// How many program headers the image announces.
pub open spec fn headers_in(image: Seq<u8>) -> nat {
    u16_at(image, 56) as nat
}

/// What is planned for an accepted image is decided by its bytes: one part for each header that
/// asks for memory, in the order of the headers, with the places and sizes that the header's
/// fields name. The part is writable exactly where bit one of the header's flags is set, and
/// executable exactly where bit zero is.
pub proof fn law_parts_are_what_the_headers_ask_for(image: Seq<u8>, layout: paging::UserLayout)
    requires
        elf::load_plan(image, layout) is Ok,
    ensures
        ({
            let parts = elf::load_plan(image, layout)->Ok_0;
            let headers = asking(image, headers_in(image));
            &&& parts.len() == headers.len()
            &&& forall|k: int|
                0 <= k < parts.len() ==> 0 <= #[trigger] headers[k] < headers_in(image) && asks(
                    image,
                    headers[k],
                ) && planned_from(parts[k], image, headers[k])
            &&& forall|k: int, l: int|
                0 <= k < l < headers.len() ==> #[trigger] headers[k] < #[trigger] headers[l]
            &&& forall|i: int|
                #![trigger asks(image, i)]
                0 <= i < headers_in(image) && asks(image, i) ==> headers.contains(i)
        }),
{
    elf_laws::law_accepted_images(image, layout);
    law_numbers_are_little_endian(image, 56);
    lemma_asking(image, headers_in(image));
    let parts = elf::load_plan(image, layout)->Ok_0;
    let headers = asking(image, headers_in(image));
    assert forall|k: int| 0 <= k < parts.len() implies 0 <= #[trigger] headers[k] < headers_in(
        image,
    ) && asks(image, headers[k]) && planned_from(parts[k], image, headers[k]) by {
        assert(planned_from(elf_laws::wanted_parts(image, headers_in(image))[k], image, headers[k]));
    }
}

/// Check number `n` that the start of an image has to pass: it has room for the ELF header, which
/// says that it is one, for 64 bits, little-endian, of version one, an executable for this kind of
/// machine, with headers of the usual sizes, one to 32 of them, all inside the image.
pub open spec fn start_passes(image: Seq<u8>, n: int) -> bool {
    if n == 0 {
        image.len() >= 64
    } else if n == 1 {
        image[0] == 0x7f && image[1] == 0x45 && image[2] == 0x4c && image[3] == 0x46
    } else if n == 2 {
        image[4] == 2
    } else if n == 3 {
        image[5] == 1
    } else if n == 4 {
        image[6] == 1
    } else if n == 5 {
        u16_at(image, 16) == 2
    } else if n == 6 {
        u16_at(image, 18) == 62
    } else if n == 7 {
        u32_at(image, 20) == 1
    } else if n == 8 {
        u16_at(image, 52) == 64
    } else if n == 9 {
        u16_at(image, 54) == 56
    } else if n == 10 {
        1 <= u16_at(image, 56) <= 32
    } else {
        u64_at(image, 32) + 56 * u16_at(image, 56) <= image.len()
    }
}

/// The error that stands for check number `n`.
pub open spec fn start_error(n: int) -> LoadError {
    if n == 0 {
        LoadError::ImageTooSmall
    } else if n == 1 {
        LoadError::BadMagic
    } else if n == 2 {
        LoadError::UnsupportedClass
    } else if n == 3 {
        LoadError::UnsupportedEndianness
    } else if n == 4 {
        LoadError::UnsupportedIdentVersion
    } else if n == 5 {
        LoadError::UnsupportedType
    } else if n == 6 {
        LoadError::UnsupportedMachine
    } else if n == 7 {
        LoadError::UnsupportedVersion
    } else if n == 8 {
        LoadError::InvalidHeaderSize
    } else if n == 9 {
        LoadError::InvalidProgramHeaderSize
    } else if n == 10 {
        LoadError::InvalidProgramHeaderCount
    } else {
        LoadError::ProgramHeaderTableOutsideImage
    }
}

/// The first `n` checks on the start of the image are passed.
pub open spec fn start_passes_before(image: Seq<u8>, n: int) -> bool {
    forall|m: int| 0 <= m < n ==> #[trigger] start_passes(image, m)
}

#[verifier::rlimit(40)]
proof fn lemma_start(image: Seq<u8>)
    ensures
        elf::header_error(image) is None <==> start_passes_before(image, 12),
        forall|n: int|
            0 <= n < 12 && start_passes_before(image, n) && !#[trigger] start_passes(image, n)
                ==> elf::header_error(image) == Some(start_error(n)),
{
    let magic = seq![0x7fu8, 0x45u8, 0x4cu8, 0x46u8];
    law_numbers_are_little_endian(image, 16);
    law_numbers_are_little_endian(image, 18);
    law_numbers_are_little_endian(image, 20);
    law_numbers_are_little_endian(image, 32);
    law_numbers_are_little_endian(image, 52);
    law_numbers_are_little_endian(image, 54);
    law_numbers_are_little_endian(image, 56);
    if image.len() >= 64 {
        let start = image.take(4);
        assert(start[0] == image[0] && start[1] == image[1] && start[2] == image[2] && start[3]
            == image[3]);
        assert(start == magic <==> start_passes(image, 1)) by {
            if start_passes(image, 1) {
                assert(start =~= magic);
            }
        }
    }
    assert(start_passes(image, 0) == (image.len() >= 64));
    assert forall|n: int|
        0 <= n < 12 && start_passes_before(image, n) && !#[trigger] start_passes(
            image,
            n,
        ) implies elf::header_error(image) == Some(start_error(n)) by {
        assert(n > 0 ==> start_passes(image, 0));
        assert(n > 1 ==> start_passes(image, 1));
        assert(n > 2 ==> start_passes(image, 2));
        assert(n > 3 ==> start_passes(image, 3));
        assert(n > 4 ==> start_passes(image, 4));
        assert(n > 5 ==> start_passes(image, 5));
        assert(n > 6 ==> start_passes(image, 6));
        assert(n > 7 ==> start_passes(image, 7));
        assert(n > 8 ==> start_passes(image, 8));
        assert(n > 9 ==> start_passes(image, 9));
        assert(n > 10 ==> start_passes(image, 10));
    }
    if elf::header_error(image) is None {
        assert forall|m: int| 0 <= m < 12 implies #[trigger] start_passes(image, m) by {}
    }
    if start_passes_before(image, 12) {
        assert(start_passes(image, 0) && start_passes(image, 1) && start_passes(image, 2)
            && start_passes(image, 3) && start_passes(image, 4) && start_passes(image, 5)
            && start_passes(image, 6) && start_passes(image, 7) && start_passes(image, 8)
            && start_passes(image, 9) && start_passes(image, 10) && start_passes(image, 11));
    }
}

/// An image whose start fails a check is refused, and told the first check that fails.
pub proof fn law_bad_starts_are_refused(image: Seq<u8>, layout: paging::UserLayout, n: int)
    requires
        0 <= n < 12,
        start_passes_before(image, n),
        !start_passes(image, n),
    ensures
        elf::load_plan(image, layout) == Err::<Seq<SegmentPlan>, LoadError>(start_error(n)),
{
    lemma_start(image);
}

/// The alignment of header `i` names none, or a power of two by which its two places leave the
/// same rest.
pub open spec fn places_agree(image: Seq<u8>, i: int) -> bool {
    let align = alignment_of(image, i);
    align <= 1 || ((exists|k: nat| align == #[trigger] vstd::arithmetic::power2::pow2(k))
        && memory_place(image, i) % align == file_place(image, i) % align)
}

/// Header `i` can be granted by itself: it has no more data than memory, and, where it asks for
/// memory, its data lies in the image and its memory in the user region, its places agree, it can
/// be read, and it is not both writable and executable.
pub open spec fn grantable(image: Seq<u8>, layout: paging::UserLayout, i: int) -> bool {
    is_for_memory(image, i) ==> {
        &&& file_bytes(image, i) <= memory_bytes(image, i)
        &&& memory_bytes(image, i) != 0 ==> {
            &&& file_place(image, i) + file_bytes(image, i) <= image.len()
            &&& memory_place(image, i) + memory_bytes(image, i) <= u64::MAX
            &&& layout.base <= memory_place(image, i)
            &&& memory_place(image, i) + memory_bytes(image, i) <= layout.end
            &&& places_agree(image, i)
            &&& flags_of(image, i) & 4 != 0
            &&& !(flags_of(image, i) & 2 != 0 && flags_of(image, i) & 1 != 0)
        }
    }
}

/// `page` holds a byte of the memory that header `i` asks for.
pub open spec fn touches(image: Seq<u8>, i: int, page: int) -> bool {
    in_pages(memory_place(image, i), memory_bytes(image, i), page)
}

/// `page` holds one of the `size` bytes from `start` on.
pub open spec fn in_pages(start: int, size: int, page: int) -> bool {
    start / 4096 <= page <= (start + size - 1) / 4096
}

/// The memory of headers `i` and `j` has a page in common.
pub open spec fn share_a_page(image: Seq<u8>, i: int, j: int) -> bool {
    exists|page: int| #[trigger] touches(image, i, page) && touches(image, j, page)
}

/// How many pages the headers among the first `count` that ask for memory touch.
pub open spec fn pages_touched(image: Seq<u8>, count: nat) -> int
    decreases count,
{
    if count == 0 {
        0
    } else {
        pages_touched(image, (count - 1) as nat) + if asks(image, count - 1) {
            (memory_place(image, count - 1) + memory_bytes(image, count - 1) - 1) / 4096
                - memory_place(image, count - 1) / 4096 + 1
        } else {
            0
        }
    }
}

/// The entry point lies in the memory of header `i`, which can be executed.
pub open spec fn enters(image: Seq<u8>, i: int) -> bool {
    &&& asks(image, i)
    &&& flags_of(image, i) & 1 != 0
    &&& memory_place(image, i) <= u64_at(image, 24) < memory_place(image, i) + memory_bytes(
        image,
        i,
    )
}

proof fn lemma_grantable(image: Seq<u8>, layout: paging::UserLayout, i: int)
    ensures
        grantable(image, layout, i) <==> elf_laws::header_fine(
            elf::header_at(image, i),
            image.len(),
            layout,
        ),
{
    lemma_header(image, i);
    let header = elf::header_at(image, i);
    assert(header.aligned() <==> places_agree(image, i));
}

#[verifier::rlimit(40)]
proof fn lemma_pages_touched(image: Seq<u8>, layout: paging::UserLayout, count: nat)
    requires
        layout.end <= u64::MAX - 4095,
        forall|i: int| 0 <= i < count ==> #[trigger] grantable(image, layout, i),
    ensures
        elf::total_pages(elf_laws::wanted_parts(image, count)) == pages_touched(image, count),
    decreases count,
{
    if count > 0 {
        let less = (count - 1) as nat;
        lemma_pages_touched(image, layout, less);
        lemma_header(image, count - 1);
        assert(grantable(image, layout, count - 1));
        if asks(image, count - 1) {
            let part = elf::header_at(image, count - 1).segment();
            let all = elf_laws::wanted_parts(image, count);
            assert(all.drop_last() =~= elf_laws::wanted_parts(image, less));
            copies::lemma_span(part);
        }
    }
}

#[verifier::rlimit(40)]
proof fn lemma_shared_page(image: Seq<u8>, i: int, j: int, one: SegmentPlan, two: SegmentPlan)
    requires
        planned_from(one, image, i),
        planned_from(two, image, j),
        one.memory_size > 0,
        two.memory_size > 0,
        one.virtual_address + one.memory_size <= u64::MAX - 4095,
        two.virtual_address + two.memory_size <= u64::MAX - 4095,
    ensures
        share_a_page(image, i, j) <==> one.overlaps(two),
        share_a_page(image, i, j) <==> two.overlaps(one),
{
    let page = lemma_common_page(one, two);
    if one.overlaps(two) {
        assert(touches(image, i, page) && touches(image, j, page));
    }
    if share_a_page(image, i, j) {
        let shared = choose|page: int| #[trigger]
            touches(image, i, page) && touches(image, j, page);
        lemma_page_shared(one, two, shared);
    }
}

/// Parts whose pages overlap have a page in common.
proof fn lemma_common_page(one: SegmentPlan, two: SegmentPlan) -> (page: int)
    requires
        one.memory_size > 0,
        two.memory_size > 0,
        one.virtual_address + one.memory_size <= u64::MAX - 4095,
        two.virtual_address + two.memory_size <= u64::MAX - 4095,
    ensures
        one.overlaps(two) ==> in_pages(
            one.virtual_address as int,
            one.memory_size as int,
            page,
        ) && in_pages(two.virtual_address as int, two.memory_size as int, page),
{
    copies::lemma_span(one);
    copies::lemma_span(two);
    if one.first_page() >= two.first_page() {
        one.first_page() / 4096
    } else {
        two.first_page() / 4096
    }
}

/// Parts that have a page in common overlap.
proof fn lemma_page_shared(one: SegmentPlan, two: SegmentPlan, page: int)
    requires
        one.memory_size > 0,
        two.memory_size > 0,
        one.virtual_address + one.memory_size <= u64::MAX - 4095,
        two.virtual_address + two.memory_size <= u64::MAX - 4095,
        in_pages(one.virtual_address as int, one.memory_size as int, page),
        in_pages(two.virtual_address as int, two.memory_size as int, page),
    ensures
        one.overlaps(two),
{
    copies::lemma_span(one);
    copies::lemma_span(two);
}

/// The headers of the image fit together: each can be granted, at most eight ask for memory, no
/// two of those share a page, and they touch at most 64 pages.
pub open spec fn headers_fit(image: Seq<u8>, layout: paging::UserLayout) -> bool {
    &&& forall|i: int| 0 <= i < headers_in(image) ==> #[trigger] grantable(image, layout, i)
    &&& asking(image, headers_in(image)).len() <= 8
    &&& forall|i: int, j: int|
        0 <= i < j < headers_in(image) && #[trigger] asks(image, i) && #[trigger] asks(image, j)
            ==> !share_a_page(image, i, j)
    &&& pages_touched(image, headers_in(image)) <= 64
}

#[verifier::rlimit(40)]
proof fn lemma_apart(image: Seq<u8>, layout: paging::UserLayout)
    requires
        layout.end <= u64::MAX - 4095,
        forall|i: int| 0 <= i < headers_in(image) ==> #[trigger] grantable(image, layout, i),
    ensures
        elf_laws::parts_apart(elf_laws::wanted_parts(image, headers_in(image))) <==> forall|
            i: int,
            j: int,
        |
            0 <= i < j < headers_in(image) && #[trigger] asks(image, i) && #[trigger] asks(image, j)
                ==> !share_a_page(image, i, j),
{
    let count = headers_in(image);
    let parts = elf_laws::wanted_parts(image, count);
    let headers = asking(image, count);
    lemma_asking(image, count);
    assert forall|k: int| 0 <= k < parts.len() implies (#[trigger] parts[k]).memory_size > 0
        && parts[k].virtual_address + parts[k].memory_size <= u64::MAX - 4095 by {
        assert(planned_from(parts[k], image, headers[k]));
        assert(grantable(image, layout, headers[k]));
    }
    if elf_laws::parts_apart(parts) {
        assert forall|i: int, j: int|
            0 <= i < j < count && #[trigger] asks(image, i) && #[trigger] asks(
                image,
                j,
            ) implies !share_a_page(image, i, j) by {
            let k = choose|k: int| 0 <= k < headers.len() && headers[k] == i;
            let l = choose|l: int| 0 <= l < headers.len() && headers[l] == j;
            assert(headers.contains(i) && headers.contains(j));
            assert(k < l) by {
                if l < k {
                    assert(headers[l] < headers[k]);
                }
            }
            assert(!parts[l].overlaps(parts[k]));
            assert(planned_from(parts[k], image, headers[k]));
            assert(planned_from(parts[l], image, headers[l]));
            lemma_shared_page(image, i, j, parts[k], parts[l]);
        }
    }
    if forall|i: int, j: int|
        0 <= i < j < count && #[trigger] asks(image, i) && #[trigger] asks(image, j)
            ==> !share_a_page(image, i, j) {
        assert forall|k: int, l: int| 0 <= k < l < parts.len() implies !(
        #[trigger] parts[l]).overlaps(#[trigger] parts[k]) by {
            assert(planned_from(parts[k], image, headers[k]));
            assert(planned_from(parts[l], image, headers[l]));
            assert(headers[k] < headers[l]);
            assert(asks(image, headers[k]) && asks(image, headers[l]));
            lemma_shared_page(image, headers[k], headers[l], parts[k], parts[l]);
        }
    }
}

/// An image is accepted exactly where its bytes say so: its start passes every check, its headers
/// fit together, at least one of them asks for memory, and the entry point lies in memory that
/// can be executed. This is for user regions that end before the last page.
#[verifier::rlimit(40)]
pub proof fn law_bytes_decide_what_is_accepted(image: Seq<u8>, layout: paging::UserLayout)
    requires
        layout.end <= u64::MAX - 4095,
    ensures
        elf::load_plan(image, layout) is Ok <==> {
            &&& start_passes_before(image, 12)
            &&& headers_fit(image, layout)
            &&& exists|i: int| 0 <= i < headers_in(image) && #[trigger] asks(image, i)
            &&& exists|i: int| 0 <= i < headers_in(image) && #[trigger] enters(image, i)
        },
{
    let count = headers_in(image);
    let parts = elf_laws::wanted_parts(image, count);
    let headers = asking(image, count);
    lemma_start(image);
    law_numbers_are_little_endian(image, 56);
    law_numbers_are_little_endian(image, 24);
    lemma_asking(image, count);
    elf_laws::law_accepted_images(image, layout);
    assert((forall|i: int| 0 <= i < count ==> #[trigger] grantable(image, layout, i)) <==> (forall|
        i: int,
    |
        0 <= i < count ==> elf_laws::header_fine(
            #[trigger] elf::header_at(image, i),
            image.len(),
            layout,
        ))) by {
        if forall|i: int| 0 <= i < count ==> #[trigger] grantable(image, layout, i) {
            assert forall|i: int| 0 <= i < count implies elf_laws::header_fine(
                #[trigger] elf::header_at(image, i),
                image.len(),
                layout,
            ) by {
                assert(grantable(image, layout, i));
                lemma_grantable(image, layout, i);
            }
        } else {
            let i = choose|i: int| 0 <= i < count && !#[trigger] grantable(image, layout, i);
            lemma_grantable(image, layout, i);
            assert(!elf_laws::header_fine(elf::header_at(image, i), image.len(), layout));
        }
    }
    if forall|i: int| 0 <= i < count ==> #[trigger] grantable(image, layout, i) {
        lemma_pages_touched(image, layout, count);
        lemma_apart(image, layout);
        assert(headers.len() > 0 <==> exists|i: int| 0 <= i < count && #[trigger] asks(image, i))
            by {
            if headers.len() > 0 {
                assert(asks(image, headers[0]));
            }
        }
        assert(elf::entry_covered(elf::entry_of(image), parts) <==> exists|i: int|
            0 <= i < count && #[trigger] enters(image, i)) by {
            if elf::entry_covered(elf::entry_of(image), parts) {
                let k = choose|k: int|
                    0 <= k < parts.len() && #[trigger] parts[k].executable && parts[k].covers(
                        elf::entry_of(image),
                    );
                assert(planned_from(parts[k], image, headers[k]));
                assert(0 <= headers[k] < count);
                assert(enters(image, headers[k]));
            }
            if exists|i: int| 0 <= i < count && #[trigger] enters(image, i) {
                let i = choose|i: int| 0 <= i < count && #[trigger] enters(image, i);
                assert(headers.contains(i));
                let k = choose|k: int| 0 <= k < headers.len() && headers[k] == i;
                assert(planned_from(parts[k], image, headers[k]));
                assert(parts[k].executable && parts[k].covers(elf::entry_of(image)));
            }
        }
    }
}

/// What is wrong with header `i`, where `error` names it.
pub open spec fn is_at_fault(
    image: Seq<u8>,
    layout: paging::UserLayout,
    i: int,
    error: LoadError,
) -> bool {
    match error {
        LoadError::SegmentFileLargerThanMemory => is_for_memory(image, i) && file_bytes(image, i)
            > memory_bytes(image, i),
        LoadError::SegmentOutsideImage => asks(image, i) && file_place(image, i) + file_bytes(
            image,
            i,
        ) > image.len(),
        LoadError::SegmentAddressOverflow => asks(image, i) && memory_place(image, i)
            + memory_bytes(image, i) > u64::MAX,
        LoadError::SegmentOutsideUserRegion => asks(image, i) && (memory_place(image, i)
            < layout.base || memory_place(image, i) + memory_bytes(image, i) > layout.end),
        LoadError::SegmentAlignmentInvalid => asks(image, i) && !places_agree(image, i),
        LoadError::SegmentMissingReadPermission => asks(image, i) && flags_of(image, i) & 4 == 0,
        LoadError::WritableExecutableSegment => asks(image, i) && flags_of(image, i) & 2 != 0
            && flags_of(image, i) & 1 != 0,
        LoadError::TooManyLoadSegments => asks(image, i) && asking(image, i as nat).len() == 8,
        LoadError::SegmentPageOverlap => asks(image, i) && exists|j: int|
            0 <= j < i && #[trigger] asks(image, j) && share_a_page(image, i, j),
        LoadError::TooManyLoadPages => asks(image, i) && pages_touched(image, (i + 1) as nat) > 64,
        _ => false,
    }
}

#[verifier::rlimit(40)]
proof fn lemma_scan_error(image: Seq<u8>, layout: paging::UserLayout, count: nat)
    requires
        layout.end <= u64::MAX - 4095,
    ensures
        elf::scan_headers(image, layout, count) matches Err(error) ==> exists|i: int|
            0 <= i < count && #[trigger] is_at_fault(image, layout, i, error),
    decreases count,
{
    if count > 0 {
        let less = (count - 1) as nat;
        let i = count - 1;
        lemma_scan_error(image, layout, less);
        match elf::scan_headers(image, layout, less) {
            Err(error) => {
                let k = choose|k: int| 0 <= k < less && #[trigger] is_at_fault(
                    image,
                    layout,
                    k,
                    error,
                );
                assert(is_at_fault(image, layout, k, error));
            },
            Ok(parts) => {
                elf_laws::lemma_scan_is_loadable(image, layout, less);
                lemma_header(image, i);
                lemma_asking(image, less);
                assert forall|k: int| 0 <= k < less implies #[trigger] grantable(
                    image,
                    layout,
                    k,
                ) by {
                    assert(elf_laws::header_fine(elf::header_at(image, k), image.len(), layout));
                    lemma_grantable(image, layout, k);
                }
                lemma_pages_touched(image, layout, less);
                if elf::scan_headers(image, layout, count) is Err {
                    let error = elf::scan_headers(image, layout, count)->Err_0;
                    let header = elf::header_at(image, i);
                    let segment = header.segment();
                    if asks(image, i) && header.file_size <= header.memory_size && header.error(
                        image.len(),
                        layout,
                    ) is None {
                        copies::lemma_span(segment);
                        if exists|k: int|
                            0 <= k < parts.len() && segment.overlaps(#[trigger] parts[k]) {
                            let k = choose|k: int|
                                0 <= k < parts.len() && segment.overlaps(#[trigger] parts[k]);
                            let j = asking(image, less)[k];
                            assert(planned_from(parts[k], image, j));
                            assert(grantable(image, layout, j));
                            lemma_shared_page(image, i, j, segment, parts[k]);
                            assert(asks(image, j) && share_a_page(image, i, j));
                        }
                    }
                    assert(is_at_fault(image, layout, i, error));
                }
            },
        }
    }
}

/// An image whose start is in order is refused only for a fault that it has: the error names
/// something that is wrong with one of its headers, or says that none asks for memory, or that
/// the entry point lies in none that can be executed. This is for user regions that end before
/// the last page.
#[verifier::rlimit(40)]
pub proof fn law_refusals_name_a_fault(image: Seq<u8>, layout: paging::UserLayout)
    requires
        layout.end <= u64::MAX - 4095,
        start_passes_before(image, 12),
    ensures
        elf::load_plan(image, layout) matches Err(error) ==> {
            ||| exists|i: int|
                0 <= i < headers_in(image) && #[trigger] is_at_fault(image, layout, i, error)
            ||| error is NoLoadSegments && forall|i: int|
                0 <= i < headers_in(image) ==> !#[trigger] asks(image, i)
            ||| error is EntryOutsideExecutableSegment && forall|i: int|
                0 <= i < headers_in(image) ==> !#[trigger] enters(image, i)
        },
{
    let count = headers_in(image);
    lemma_start(image);
    law_numbers_are_little_endian(image, 56);
    lemma_scan_error(image, layout, count);
    law_bytes_decide_what_is_accepted(image, layout);
    lemma_asking(image, count);
    if elf::scan_headers(image, layout, count) is Ok {
        elf_laws::lemma_scan_is_loadable(image, layout, count);
        let parts = elf_laws::wanted_parts(image, count);
        let headers = asking(image, count);
        if headers.len() == 0 {
            assert forall|i: int| 0 <= i < count implies !#[trigger] asks(image, i) by {
                if asks(image, i) {
                    assert(headers.contains(i));
                }
            }
        } else {
            assert(asks(image, headers[0]));
            law_numbers_are_little_endian(image, 24);
            assert forall|i: int| 0 <= i < count && #[trigger] enters(image, i) implies
                elf::entry_covered(elf::entry_of(image), parts) by {
                assert(headers.contains(i));
                let k = choose|k: int| 0 <= k < headers.len() && headers[k] == i;
                assert(planned_from(parts[k], image, headers[k]));
                assert(parts[k].executable && parts[k].covers(elf::entry_of(image)));
            }
        }
    }
}

/// The span of some parts reaches from the page of the lowest to behind the page of the highest,
/// and no further. Each part counts with the pages it touches.
#[verifier::rlimit(40)]
pub proof fn law_spans_reach_from_lowest_to_highest(parts: Seq<SegmentPlan>)
    requires
        parts.len() > 0,
        forall|k: int|
            0 <= k < parts.len() ==> (#[trigger] parts[k]).memory_size > 0
                && parts[k].virtual_address + parts[k].memory_size <= u64::MAX - 4095,
    ensures
        ({
            let low = elf::lowest_page(parts);
            let high = elf::highest_page(parts);
            &&& low % 4096 == 0
            &&& high % 4096 == 0
            &&& forall|k: int|
                0 <= k < parts.len() ==> low <= (#[trigger] parts[k]).virtual_address
                    && parts[k].virtual_address + parts[k].memory_size <= high
            &&& exists|k: int|
                0 <= k < parts.len() && (#[trigger] parts[k]).virtual_address < low + 4096
            &&& exists|k: int|
                0 <= k < parts.len() && (#[trigger] parts[k]).virtual_address
                    + parts[k].memory_size > high - 4096
            &&& elf::total_pages(parts) == elf::total_pages(parts.drop_last()) + (
            parts.last().virtual_address + parts.last().memory_size - 1) / 4096
                - parts.last().virtual_address as int / 4096 + 1
        }),
    decreases parts.len(),
{
    let less = parts.drop_last();
    let end = parts.len() - 1;
    assert(parts[end] == parts.last());
    copies::lemma_span(parts.last());
    if less.len() > 0 {
        assert forall|k: int| 0 <= k < less.len() implies (#[trigger] less[k]).memory_size > 0
            && less[k].virtual_address + less[k].memory_size <= u64::MAX - 4095 by {
            assert(parts[k].memory_size > 0);
        }
        law_spans_reach_from_lowest_to_highest(less);
        let a = choose|k: int|
            0 <= k < less.len() && (#[trigger] less[k]).virtual_address < elf::lowest_page(less)
                + 4096;
        let b = choose|k: int|
            0 <= k < less.len() && (#[trigger] less[k]).virtual_address + less[k].memory_size
                > elf::highest_page(less) - 4096;
        assert(parts[a] == less[a] && parts[b] == less[b]);
        assert forall|k: int| 0 <= k < parts.len() implies elf::lowest_page(parts) <= (
        #[trigger] parts[k]).virtual_address && parts[k].virtual_address + parts[k].memory_size
            <= elf::highest_page(parts) by {
            if k < end {
                assert(less[k] == parts[k]);
            }
        }
    } else {
        assert(elf::lowest_page(less) == u64::MAX);
        assert(elf::highest_page(less) == 0);
    }
}

} // verus!
