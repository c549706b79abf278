//! What an accepted image is known to satisfy.
use crate::{elf, paging};
use crate::elf::{LoadError, ProgramHeader, SegmentPlan};
use vstd::prelude::*;

verus! {

/// The segments that the first `count` program headers ask for: one for each header that
/// describes memory, in order.
pub open spec fn wanted_parts(image: Seq<u8>, count: nat) -> Seq<SegmentPlan>
    decreases count,
{
    if count == 0 {
        Seq::empty()
    } else {
        let rest = wanted_parts(image, (count - 1) as nat);
        let header = elf::header_at(image, count - 1);
        if header.is_load() && header.memory_size > 0 {
            rest.push(header.segment())
        } else {
            rest
        }
    }
}

/// A program header that no check refuses by itself.
pub open spec fn header_fine(
    header: ProgramHeader,
    image_len: nat,
    layout: paging::UserLayout,
) -> bool {
    header.is_load() ==> {
        &&& header.file_size <= header.memory_size
        &&& header.memory_size > 0 ==> header.error(image_len, layout) is None
    }
}

/// No two of `parts` share a page.
pub open spec fn parts_apart(parts: Seq<SegmentPlan>) -> bool {
    forall|i: int, j: int|
        0 <= i < j < parts.len() ==> !(#[trigger] parts[j]).overlaps(#[trigger] parts[i])
}

/// The first `count` program headers can be loaded together.
pub open spec fn loadable(image: Seq<u8>, layout: paging::UserLayout, count: nat) -> bool {
    &&& forall|i: int|
        0 <= i < count ==> header_fine(#[trigger] elf::header_at(image, i), image.len(), layout)
    &&& wanted_parts(image, count).len() <= 8
    &&& parts_apart(wanted_parts(image, count))
    &&& elf::total_pages(wanted_parts(image, count)) <= 64
}

/// A segment that obeys the loader's rules.
pub open spec fn part_sound(
    part: SegmentPlan,
    image_len: nat,
    layout: paging::UserLayout,
) -> bool {
    &&& 0 < part.memory_size
    &&& part.file_size <= part.memory_size
    &&& part.file_offset + part.file_size <= image_len
    &&& layout.base <= part.virtual_address
    &&& part.virtual_address + part.memory_size <= layout.end
    &&& !(part.writable && part.executable)
}

proof fn lemma_header_bounds(image: Seq<u8>, index: int)
    ensures
        elf::header_at(image, index).file_offset <= u64::MAX,
        elf::header_at(image, index).virtual_address <= u64::MAX,
        elf::header_at(image, index).file_size <= u64::MAX,
        elf::header_at(image, index).memory_size <= u64::MAX,
{
    let at = elf::header_start(image, index);
    crate::bytes::lemma_byte_ranges();
    crate::bytes::lemma_le_at_bound(image, at + 8, 8);
    crate::bytes::lemma_le_at_bound(image, at + 16, 8);
    crate::bytes::lemma_le_at_bound(image, at + 32, 8);
    crate::bytes::lemma_le_at_bound(image, at + 40, 8);
}

proof fn lemma_wanted_sound(image: Seq<u8>, layout: paging::UserLayout, count: nat)
    requires
        forall|i: int|
            0 <= i < count ==> header_fine(
                #[trigger] elf::header_at(image, i),
                image.len(),
                layout,
            ),
    ensures
        forall|i: int|
            0 <= i < wanted_parts(image, count).len() ==> part_sound(
                #[trigger] wanted_parts(image, count)[i],
                image.len(),
                layout,
            ),
    decreases count,
{
    if count > 0 {
        lemma_wanted_sound(image, layout, (count - 1) as nat);
        lemma_header_bounds(image, count - 1);
        let header = elf::header_at(image, count - 1);
        let rest = wanted_parts(image, (count - 1) as nat);
        assert(header_fine(header, image.len(), layout));
        if header.is_load() && header.memory_size > 0 {
            assert(part_sound(header.segment(), image.len(), layout));
        }
        assert forall|i: int| 0 <= i < wanted_parts(image, count).len() implies part_sound(
            #[trigger] wanted_parts(image, count)[i],
            image.len(),
            layout,
        ) by {
            if i < rest.len() {
                assert(wanted_parts(image, count)[i] == rest[i]);
            }
        }
    }
}

pub proof fn lemma_scan_is_loadable(image: Seq<u8>, layout: paging::UserLayout, count: nat)
    ensures
        elf::scan_headers(image, layout, count) is Ok <==> loadable(image, layout, count),
        elf::scan_headers(image, layout, count) is Ok ==> elf::scan_headers(image, layout, count)
            == Ok::<Seq<SegmentPlan>, LoadError>(wanted_parts(image, count)),
    decreases count,
{
    if count > 0 {
        let less = (count - 1) as nat;
        lemma_scan_is_loadable(image, layout, less);
        let parts = wanted_parts(image, less);
        let header = elf::header_at(image, count - 1);
        let segment = header.segment();
        let adds = header.is_load() && header.memory_size > 0;
        if loadable(image, layout, count) {
            assert forall|i: int| 0 <= i < less implies header_fine(
                #[trigger] elf::header_at(image, i),
                image.len(),
                layout,
            ) by {}
            lemma_wanted_sound(image, layout, count);
            if adds {
                let more = wanted_parts(image, count);
                assert(more.drop_last() =~= parts);
                assert(more[parts.len() as int] == segment);
                assert(part_sound(segment, image.len(), layout));
                elf::lemma_pages_ordered(segment);
                assert forall|i: int, j: int| 0 <= i < j < parts.len() implies !(
                #[trigger] parts[j]).overlaps(#[trigger] parts[i]) by {
                    assert(!more[j].overlaps(more[i]));
                }
                assert forall|i: int| 0 <= i < parts.len() implies !segment.overlaps(
                    #[trigger] parts[i],
                ) by {
                    assert(!more[parts.len() as int].overlaps(more[i]));
                }
            }
            assert(loadable(image, layout, less));
            assert(header_fine(header, image.len(), layout));
        }
        if elf::scan_headers(image, layout, count) is Ok {
            assert(elf::add_header(parts, header, image.len(), layout) is Ok);
            if adds {
                let more = wanted_parts(image, count);
                assert(more == parts.push(segment));
                assert(more.drop_last() =~= parts);
                assert forall|i: int, j: int| 0 <= i < j < more.len() implies !(
                #[trigger] more[j]).overlaps(#[trigger] more[i]) by {
                    if j < parts.len() {
                        assert(!parts[j].overlaps(parts[i]));
                    } else {
                        assert(!segment.overlaps(parts[i]));
                    }
                }
            }
            assert forall|i: int| 0 <= i < count implies header_fine(
                #[trigger] elf::header_at(image, i),
                image.len(),
                layout,
            ) by {
                if i == count - 1 {
                    assert(header_fine(header, image.len(), layout));
                }
            }
            assert(loadable(image, layout, count));
        }
    }
}

/// An image is accepted exactly when its header is sound, its program headers are each fine
/// and fit together, at least one asks for memory, and the entry point is executable; what is
/// loaded is then exactly what the headers ask for.
pub proof fn law_accepted_images(image: Seq<u8>, layout: paging::UserLayout)
    ensures
        elf::load_plan(image, layout) is Ok <==> {
            &&& elf::header_error(image) is None
            &&& loadable(image, layout, elf::header_count(image))
            &&& wanted_parts(image, elf::header_count(image)).len() > 0
            &&& elf::entry_covered(
                elf::entry_of(image),
                wanted_parts(image, elf::header_count(image)),
            )
        },
        elf::load_plan(image, layout) is Ok ==> elf::load_plan(image, layout)->Ok_0
            == wanted_parts(image, elf::header_count(image)),
{
    lemma_scan_is_loadable(image, layout, elf::header_count(image));
}

/// Whatever is accepted lies inside the image and the user region, is never both writable and
/// executable, shares no page, and fits the loader's page limit.
pub proof fn law_accepted_parts_sound(image: Seq<u8>, layout: paging::UserLayout)
    requires
        elf::load_plan(image, layout) is Ok,
    ensures
        ({
            let parts = elf::load_plan(image, layout)->Ok_0;
            &&& 1 <= parts.len() <= 8
            &&& forall|i: int|
                0 <= i < parts.len() ==> part_sound(#[trigger] parts[i], image.len(), layout)
            &&& parts_apart(parts)
            &&& 0 <= elf::total_pages(parts) <= 64
            &&& elf::entry_covered(elf::entry_of(image), parts)
        }),
{
    law_accepted_images(image, layout);
    lemma_wanted_sound(image, layout, elf::header_count(image));
    elf::lemma_total_pages_nonnegative(wanted_parts(image, elf::header_count(image)));
}

} // verus!
