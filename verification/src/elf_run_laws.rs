//! What a load has done to memory and to the page tables, told from its actions and from what
//! its driver reported on them.
use crate::elf::{LoadError, SegmentPlan};
use crate::elf_copy_laws as copies;
use crate::elf_copy_laws::Move;
use crate::elf_load::{LoadAction, LoadEvent, LoadPhase, PageRequest};
use crate::elf_load_laws as loads;
use crate::{elf, elf_laws, elf_load, paging};
use vstd::prelude::*;

verus! {

/// The action that is asked for once `events` have been reported.
pub open spec fn asked(
    parts: Seq<SegmentPlan>,
    pages: Seq<PageRequest>,
    events: Seq<LoadEvent>,
) -> LoadAction {
    elf_load::action_of(parts, pages, loads::phase_after(parts, pages, events))
}

/// The copies that were asked for and reported as made.
pub open spec fn moves_after(
    parts: Seq<SegmentPlan>,
    pages: Seq<PageRequest>,
    events: Seq<LoadEvent>,
) -> Seq<Move>
    decreases events.len(),
{
    if events.len() == 0 {
        Seq::empty()
    } else {
        let before = moves_after(parts, pages, events.drop_last());
        match (asked(parts, pages, events.drop_last()), events.last()) {
            (LoadAction::CopyBytes { source_offset, destination, length }, LoadEvent::Copied) =>
                before.push(
                Move {
                    source: source_offset as int,
                    destination: destination as int,
                    length: length as int,
                },
            ),
            _ => before,
        }
    }
}

/// The pages that were asked for and reported as mapped, without those that were handed back
/// since.
pub open spec fn mapped_after(
    parts: Seq<SegmentPlan>,
    pages: Seq<PageRequest>,
    events: Seq<LoadEvent>,
) -> Seq<PageRequest>
    decreases events.len(),
{
    if events.len() == 0 {
        Seq::empty()
    } else {
        let before = mapped_after(parts, pages, events.drop_last());
        match (asked(parts, pages, events.drop_last()), events.last()) {
            (LoadAction::MapUserPage(request), LoadEvent::Mapped(Ok(_))) => before.push(request),
            (LoadAction::UnmapPage(page), LoadEvent::Unmapped(_)) => if before.len() > 0
                && before.last().page == page {
                before.drop_last()
            } else {
                before
            },
            _ => before,
        }
    }
}

/// The frames that unmapping gave back.
pub open spec fn frames_returned(
    parts: Seq<SegmentPlan>,
    pages: Seq<PageRequest>,
    events: Seq<LoadEvent>,
) -> Seq<u64>
    decreases events.len(),
{
    if events.len() == 0 {
        Seq::empty()
    } else {
        let before = frames_returned(parts, pages, events.drop_last());
        match (asked(parts, pages, events.drop_last()), events.last()) {
            (LoadAction::UnmapPage(_), LoadEvent::Unmapped(Ok(frame))) => before.push(frame),
            _ => before,
        }
    }
}

/// The frames that were asked to be freed and reported as released.
pub open spec fn frames_freed(
    parts: Seq<SegmentPlan>,
    pages: Seq<PageRequest>,
    events: Seq<LoadEvent>,
) -> Seq<u64>
    decreases events.len(),
{
    if events.len() == 0 {
        Seq::empty()
    } else {
        let before = frames_freed(parts, pages, events.drop_last());
        match (asked(parts, pages, events.drop_last()), events.last()) {
            (LoadAction::FreeFrame(frame), LoadEvent::Released) => before.push(frame),
            _ => before,
        }
    }
}

/// Every address that was asked about and is mapped was reported where `place` has it.
pub open spec fn truthful(
    parts: Seq<SegmentPlan>,
    pages: Seq<PageRequest>,
    place: spec_fn(int) -> int,
    events: Seq<LoadEvent>,
) -> bool
    decreases events.len(),
{
    events.len() > 0 ==> {
        &&& truthful(parts, pages, place, events.drop_last())
        &&& match (asked(parts, pages, events.drop_last()), events.last()) {
            (LoadAction::Translate(address), LoadEvent::Translated(found)) => found.mapped
                ==> found.phys == place(address as int),
            _ => true,
        }
    }
}

/// What a phase says of the copies made so far.
spec fn moves_fit(
    image: Seq<u8>,
    parts: Seq<SegmentPlan>,
    place: spec_fn(int) -> int,
    moves: Seq<Move>,
    phase: LoadPhase,
) -> bool {
    match phase {
        LoadPhase::Probing(_) | LoadPhase::Mapping(_) => moves.len() == 0,
        LoadPhase::Locating { segment, copied } => copies::in_place(
            image,
            parts,
            place,
            moves,
            segment as int,
            copied as int,
        ),
        LoadPhase::Copying { segment, copied, phys } => copies::in_place(
            image,
            parts,
            place,
            moves,
            segment as int,
            copied as int,
        ) && phys == place(parts[segment as int].virtual_address + copied),
        LoadPhase::Loaded => copies::in_place(
            image,
            parts,
            place,
            moves,
            parts.len() as int,
            0,
        ),
        _ => true,
    }
}

proof fn lemma_copy_from(
    image: Seq<u8>,
    parts: Seq<SegmentPlan>,
    place: spec_fn(int) -> int,
    moves: Seq<Move>,
    segment: int,
)
    requires
        0 <= segment <= parts.len() <= 8,
        copies::in_place(image, parts, place, moves, segment, 0),
    ensures
        moves_fit(image, parts, place, moves, elf_load::copy_from(parts, segment)),
    decreases parts.len() - segment,
{
    if segment < parts.len() && parts[segment].file_size == 0 {
        assert(copies::in_place(image, parts, place, moves, segment + 1, 0));
        lemma_copy_from(image, parts, place, moves, segment + 1);
    }
}

#[verifier::rlimit(40)]
proof fn lemma_moves(
    image: Seq<u8>,
    parts: Seq<SegmentPlan>,
    pages: Seq<PageRequest>,
    place: spec_fn(int) -> int,
    events: Seq<LoadEvent>,
)
    requires
        parts.len() <= 8,
        1 <= pages.len() <= 65,
        forall|i: int| 0 <= i < parts.len() ==> elf_load::part_in_range(#[trigger] parts[i]),
        copies::is_memory_map(parts, place),
        copies::data_apart(parts),
        truthful(parts, pages, place, events),
    ensures
        ({
            let moves = moves_after(parts, pages, events);
            &&& moves_fit(
                image,
                parts,
                place,
                moves,
                loads::phase_after(parts, pages, events),
            )
            &&& copies::nothing_else(image, parts, place, moves)
        }),
    decreases events.len(),
{
    if events.len() > 0 {
        let less = events.drop_last();
        lemma_moves(image, parts, pages, place, less);
        loads::law_failed_loads_leave_nothing(parts, pages, less);
        let before = loads::phase_after(parts, pages, less);
        let moves = moves_after(parts, pages, less);
        let more = moves_after(parts, pages, events);
        match (before, events.last()) {
            (LoadPhase::Mapping(_), LoadEvent::Mapped(Ok(_))) => {
                assert(copies::in_place(image, parts, place, moves, 0, 0));
                lemma_copy_from(image, parts, place, moves, 0);
            },
            (LoadPhase::Locating { segment, .. }, _) => {
                assert(elf_load::part_in_range(parts[segment as int]));
            },
            (LoadPhase::Copying { segment, copied, phys }, LoadEvent::Copied) => {
                let part = parts[segment as int];
                assert(elf_load::part_in_range(part));
                let length = elf_load::chunk_length(part, copied as int);
                copies::lemma_move(image, parts, place, moves, segment as int, copied as int);
                assert(more == moves.push(
                    Move {
                        source: part.file_offset + copied,
                        destination: place(part.virtual_address + copied),
                        length,
                    },
                ));
                if copied + length >= part.file_size {
                    assert(copies::in_place(image, parts, place, more, segment + 1, 0)) by {
                        assert forall|k: int, i: int|
                            0 <= k < parts.len() && 0 <= i < parts[k].file_size && (k < segment + 1
                                || (k == segment + 1 && i < 0)) implies #[trigger]
                            copies::byte_in_place(image, parts, place, more, k, i) by {
                            assert(k < segment || i < copied + length);
                        }
                    }
                    lemma_copy_from(image, parts, place, more, segment + 1);
                }
            },
            _ => {},
        }
    }
}

/// A load that was driven to its end has put every byte of file data where its address lies: for
/// each part of an accepted image, byte `i` of its data stands at the place of the part's address
/// plus `i`. Nothing but such bytes was written, at any point of the load. The driver is only
/// asked to report addresses where they lie. This is for user regions that end before the last
/// page.
pub proof fn law_loaded_images_stand_in_memory(
    image: Seq<u8>,
    layout: paging::UserLayout,
    place: spec_fn(int) -> int,
    events: Seq<LoadEvent>,
)
    requires
        elf::load_plan(image, layout) is Ok,
        image.len() <= u64::MAX,
        layout.end <= u64::MAX - 4095,
        copies::is_memory_map(elf::load_plan(image, layout)->Ok_0, place),
        ({
            let parts = elf::load_plan(image, layout)->Ok_0;
            truthful(parts, elf_load::requests(parts, layout), place, events)
        }),
    ensures
        ({
            let parts = elf::load_plan(image, layout)->Ok_0;
            let pages = elf_load::requests(parts, layout);
            let moves = moves_after(parts, pages, events);
            &&& loads::phase_after(parts, pages, events) is Loaded ==> forall|k: int, i: int|
                0 <= k < parts.len() && 0 <= i < parts[k].file_size ==> #[trigger]
                copies::byte_in_place(image, parts, place, moves, k, i)
            &&& copies::nothing_else(image, parts, place, moves)
        }),
{
    let parts = elf::load_plan(image, layout)->Ok_0;
    let pages = elf_load::requests(parts, layout);
    lemma_ready(image, layout);
    lemma_moves(image, parts, pages, place, events);
}

/// What the laws on runs ask of parts and pages holds of those of an accepted image.
pub proof fn lemma_ready(image: Seq<u8>, layout: paging::UserLayout)
    requires
        elf::load_plan(image, layout) is Ok,
        image.len() <= u64::MAX,
        layout.end <= u64::MAX - 4095,
    ensures
        ({
            let parts = elf::load_plan(image, layout)->Ok_0;
            let pages = elf_load::requests(parts, layout);
            &&& 1 <= parts.len() <= 8
            &&& 1 <= pages.len() <= 65
            &&& copies::data_apart(parts)
            &&& forall|i: int|
                0 <= i < parts.len() ==> elf_load::part_in_range(#[trigger] parts[i])
        }),
{
    let parts = elf::load_plan(image, layout)->Ok_0;
    elf_laws::law_accepted_parts_sound(image, layout);
    loads::law_requests_of_accepted_images(image, layout);
    copies::lemma_data_apart(parts, image.len(), layout);
    assert forall|i: int| 0 <= i < parts.len() implies elf_load::part_in_range(
        #[trigger] parts[i],
    ) by {
        assert(elf_laws::part_sound(parts[i], image.len(), layout));
    }
}

#[verifier::rlimit(40)]
proof fn lemma_mapped(
    parts: Seq<SegmentPlan>,
    pages: Seq<PageRequest>,
    events: Seq<LoadEvent>,
)
    requires
        parts.len() <= 8,
        1 <= pages.len() <= 65,
        forall|i: int| 0 <= i < parts.len() ==> elf_load::part_in_range(#[trigger] parts[i]),
    ensures
        ({
            let phase = loads::phase_after(parts, pages, events);
            let returned = frames_returned(parts, pages, events);
            let freed = frames_freed(parts, pages, events);
            &&& mapped_after(parts, pages, events) == pages.take(loads::live(pages, phase))
            &&& match phase {
                LoadPhase::Releasing { frame, .. } => returned == freed.push(frame),
                _ => returned == freed,
            }
        }),
    decreases events.len(),
{
    if events.len() > 0 {
        let less = events.drop_last();
        lemma_mapped(parts, pages, less);
        loads::law_failed_loads_leave_nothing(parts, pages, less);
        loads::law_failed_loads_leave_nothing(parts, pages, events);
        let before = loads::phase_after(parts, pages, less);
        loads::lemma_copy_from(parts, pages, 0);
        elf_load::lemma_copy_from_valid(parts, pages, 0);
        match (before, events.last()) {
            (LoadPhase::Mapping(index), LoadEvent::Mapped(Ok(_))) => {
                assert(pages.take(index as int).push(pages[index as int]) =~= pages.take(
                    index + 1,
                ));
            },
            (LoadPhase::Copying { segment, .. }, LoadEvent::Copied) => {
                loads::lemma_copy_from(parts, pages, segment + 1);
                elf_load::lemma_copy_from_valid(parts, pages, segment + 1);
            },
            (LoadPhase::Unmapping { remaining, .. }, LoadEvent::Unmapped(_)) => {
                assert(pages.take(remaining as int).last() == pages[remaining - 1]);
                assert(pages.take(remaining as int).drop_last() =~= pages.take(remaining - 1));
            },
            _ => {},
        }
    } else {
        assert(pages.take(0) =~= Seq::<PageRequest>::empty());
    }
}

/// A load that was driven to its end has had every page mapped that the image asks for, in order
/// and with the rights that were asked for, and none besides. A load that failed has had every
/// page unmapped that was mapped for it, and every frame freed that unmapping gave back.
pub proof fn law_loads_map_all_or_nothing(
    parts: Seq<SegmentPlan>,
    pages: Seq<PageRequest>,
    events: Seq<LoadEvent>,
)
    requires
        parts.len() <= 8,
        1 <= pages.len() <= 65,
        forall|i: int| 0 <= i < parts.len() ==> elf_load::part_in_range(#[trigger] parts[i]),
    ensures
        ({
            let phase = loads::phase_after(parts, pages, events);
            let mapped = mapped_after(parts, pages, events);
            &&& phase is Loaded ==> mapped == pages
            &&& phase is Failed ==> mapped.len() == 0
            &&& phase is Loaded || phase is Failed ==> frames_freed(parts, pages, events)
                == frames_returned(parts, pages, events)
            &&& mapped.len() <= pages.len() && mapped == pages.take(mapped.len() as int)
        }),
{
    lemma_mapped(parts, pages, events);
    loads::law_failed_loads_leave_nothing(parts, pages, events);
    assert(pages.take(pages.len() as int) =~= pages);
}

/// `address` lies in one of the pages in `mapped`.
pub open spec fn lies_in(mapped: Seq<PageRequest>, address: int) -> bool {
    exists|i: int| 0 <= i < mapped.len() && copies::asks_for(#[trigger] mapped[i], address)
}

/// Every page could be mapped, and an address was reported as mapped, and then as open to the
/// user, exactly where it lies in a page that this load has mapped.
pub open spec fn all_went_well(
    parts: Seq<SegmentPlan>,
    pages: Seq<PageRequest>,
    events: Seq<LoadEvent>,
) -> bool
    decreases events.len(),
{
    events.len() > 0 ==> {
        &&& all_went_well(parts, pages, events.drop_last())
        &&& match (asked(parts, pages, events.drop_last()), events.last()) {
            (LoadAction::Translate(address), LoadEvent::Translated(found)) => {
                &&& found.mapped <==> lies_in(
                    mapped_after(parts, pages, events.drop_last()),
                    address as int,
                )
                &&& found.mapped ==> found.user_accessible
            },
            (LoadAction::MapUserPage(_), LoadEvent::Mapped(answer)) => answer is Ok,
            _ => true,
        }
    }
}

/// No page is asked for twice.
proof fn lemma_page_is_fresh(image: Seq<u8>, layout: paging::UserLayout, index: int)
    requires
        elf::load_plan(image, layout) is Ok,
        image.len() <= u64::MAX,
        layout.end <= u64::MAX - 4095,
        layout.stack_page % 4096 == 0,
        ({
            let pages = elf_load::requests(elf::load_plan(image, layout)->Ok_0, layout);
            &&& 0 <= index < pages.len()
            &&& forall|i: int|
                0 <= i < pages.len() - 1 ==> (#[trigger] pages[i]).page != layout.stack_page
        }),
    ensures
        ({
            let pages = elf_load::requests(elf::load_plan(image, layout)->Ok_0, layout);
            !lies_in(pages.take(index), pages[index].page as int)
        }),
{
    let pages = elf_load::requests(elf::load_plan(image, layout)->Ok_0, layout);
    let mapped = pages.take(index);
    let page = pages[index].page as int;
    loads::law_requests_of_accepted_images(image, layout);
    copies::law_pages_have_the_rights_of_their_parts(image, layout);
    assert(pages[index].page % 4096 == 0) by {
        if index == pages.len() - 1 {
            assert(pages[index] == pages.last());
        }
    }
    if lies_in(mapped, page) {
        let i = choose|i: int| 0 <= i < mapped.len() && copies::asks_for(#[trigger] mapped[i], page);
        assert(mapped[i] == pages[i]);
        assert(pages[i].page % 4096 == 0);
        assert(pages[i].page == page);
        assert(pages[i].page != pages[index].page);
    }
}

/// Every address that gets data lies in a page that is asked for.
pub proof fn lemma_address_is_mapped(
    image: Seq<u8>,
    layout: paging::UserLayout,
    segment: int,
    copied: int,
)
    requires
        elf::load_plan(image, layout) is Ok,
        image.len() <= u64::MAX,
        layout.end <= u64::MAX - 4095,
        0 <= segment < elf::load_plan(image, layout)->Ok_0.len(),
        0 <= copied < elf::load_plan(image, layout)->Ok_0[segment].file_size,
    ensures
        ({
            let parts = elf::load_plan(image, layout)->Ok_0;
            &&& parts[segment].virtual_address + copied <= u64::MAX
            &&& lies_in(
                elf_load::requests(parts, layout),
                parts[segment].virtual_address + copied,
            )
        }),
{
    let parts = elf::load_plan(image, layout)->Ok_0;
    let pages = elf_load::requests(parts, layout);
    let address = parts[segment].virtual_address + copied;
    lemma_ready(image, layout);
    copies::law_pages_have_the_rights_of_their_parts(image, layout);
    assert(elf_load::part_in_range(parts[segment]));
    assert(copies::in_memory_of(parts[segment], address));
    let i = choose|i: int|
        0 <= i < pages.len() - 1 && copies::asks_for(#[trigger] pages[i], address)
            && copies::rights_of(pages[i], parts[segment]);
    assert(copies::asks_for(pages[i], address));
}

/// A load fails only for a reason: as long as every page can be mapped, no page was mapped
/// before, and what was mapped stays mapped, a load of an accepted image is on its way or done.
/// The stack page has to be a page of its own.
#[verifier::rlimit(40)]
pub proof fn law_loads_fail_only_for_a_reason(
    image: Seq<u8>,
    layout: paging::UserLayout,
    events: Seq<LoadEvent>,
)
    requires
        elf::load_plan(image, layout) is Ok,
        image.len() <= u64::MAX,
        layout.end <= u64::MAX - 4095,
        layout.stack_page % 4096 == 0,
        ({
            let parts = elf::load_plan(image, layout)->Ok_0;
            let pages = elf_load::requests(parts, layout);
            &&& all_went_well(parts, pages, events)
            &&& forall|i: int|
                0 <= i < pages.len() - 1 ==> (#[trigger] pages[i]).page != layout.stack_page
        }),
    ensures
        ({
            let parts = elf::load_plan(image, layout)->Ok_0;
            let phase = loads::phase_after(parts, elf_load::requests(parts, layout), events);
            phase is Probing || phase is Mapping || phase is Locating || phase is Copying
                || phase is Loaded
        }),
    decreases events.len(),
{
    if events.len() > 0 {
        let less = events.drop_last();
        law_loads_fail_only_for_a_reason(image, layout, less);
        let parts = elf::load_plan(image, layout)->Ok_0;
        let pages = elf_load::requests(parts, layout);
        lemma_ready(image, layout);
        lemma_mapped(parts, pages, less);
        loads::law_failed_loads_leave_nothing(parts, pages, less);
        elf_load::lemma_copy_from_valid(parts, pages, 0);
        match loads::phase_after(parts, pages, less) {
            LoadPhase::Probing(index) => {
                lemma_page_is_fresh(image, layout, index as int);
            },
            LoadPhase::Locating { segment, copied } => {
                lemma_address_is_mapped(image, layout, segment as int, copied as int);
                assert(pages.take(pages.len() as int) =~= pages);
            },
            LoadPhase::Copying { segment, .. } => {
                elf_load::lemma_copy_from_valid(parts, pages, segment + 1);
            },
            _ => {},
        }
    }
}

/// What ended a load: each report that cannot be worked with leads to its own error, and the
/// error stays what it is until the load has failed with it.
#[verifier::rlimit(40)]
pub proof fn law_failures_name_their_reason(
    parts: Seq<SegmentPlan>,
    pages: Seq<PageRequest>,
    phase: LoadPhase,
    event: LoadEvent,
)
    requires
        parts.len() <= 8,
        1 <= pages.len() <= 65,
        elf_load::phase_valid(parts, pages, phase),
    ensures
        ({
            let next = elf_load::next_phase(parts, pages, phase, event);
            &&& phase is Probing && event is Translated && event->Translated_0.mapped ==> ends_with(
                next,
                LoadError::TargetPageAlreadyMapped,
            )
            &&& phase matches LoadPhase::Mapping(index) ==> (event matches LoadEvent::Mapped(
                answer,
            ) ==> (answer matches Err(error) ==> ends_with(
                next,
                if index == pages.len() - 1 {
                    LoadError::StackMappingFailed(error)
                } else {
                    LoadError::PageMappingFailed(error)
                },
            )))
            &&& phase is Locating && event is Translated && !(event->Translated_0.mapped
                && event->Translated_0.user_accessible) ==> ends_with(next, LoadError::MappingLost)
            &&& phase matches LoadPhase::Unmapping { remaining, error } ==> ends_with(next, error)
            &&& phase matches LoadPhase::Releasing { remaining, frame, error } ==> ends_with(
                next,
                error,
            )
            &&& phase is Loaded || phase is Failed ==> next == phase
        }),
{
}

/// The load has failed with `error`, or is on its way there.
pub open spec fn ends_with(phase: LoadPhase, error: LoadError) -> bool {
    ||| phase == LoadPhase::Failed(error)
    ||| phase is Unmapping && phase->Unmapping_error == error
    ||| phase is Releasing && phase->Releasing_error == error
}

} // verus!
