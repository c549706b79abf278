//! What holds of a load whatever its driver reports.
use crate::{elf, elf_laws, elf_load, paging};
use crate::elf::SegmentPlan;
use crate::elf_load::{LoadEvent, LoadPhase, PageRequest};
use vstd::prelude::*;

verus! {

/// The phase after `events`, from the start of a load.
pub open spec fn phase_after(
    parts: Seq<SegmentPlan>,
    pages: Seq<PageRequest>,
    events: Seq<LoadEvent>,
) -> LoadPhase
    decreases events.len(),
{
    if events.len() == 0 {
        LoadPhase::Probing(0)
    } else {
        elf_load::next_phase(
            parts,
            pages,
            phase_after(parts, pages, events.drop_last()),
            events.last(),
        )
    }
}

/// The pages that were mapped in the course of `events` and not yet handed back for unmapping,
/// in the order of their mapping.
pub open spec fn outstanding(
    parts: Seq<SegmentPlan>,
    pages: Seq<PageRequest>,
    events: Seq<LoadEvent>,
) -> Seq<u64>
    decreases events.len(),
{
    if events.len() == 0 {
        Seq::empty()
    } else {
        let before = outstanding(parts, pages, events.drop_last());
        match (phase_after(parts, pages, events.drop_last()), events.last()) {
            (LoadPhase::Mapping(index), LoadEvent::Mapped(Ok(_))) => before.push(
                pages[index as int].page,
            ),
            (LoadPhase::Unmapping { remaining, .. }, LoadEvent::Unmapped(_)) => if before.len() > 0
                && before.last() == pages[remaining - 1].page {
                before.drop_last()
            } else {
                before
            },
            _ => before,
        }
    }
}

/// How many requests are mapped in `phase`.
pub open spec fn live(pages: Seq<PageRequest>, phase: LoadPhase) -> int {
    match phase {
        LoadPhase::Probing(index) | LoadPhase::Mapping(index) => index as int,
        LoadPhase::Locating { .. } | LoadPhase::Copying { .. } | LoadPhase::Loaded =>
            pages.len() as int,
        LoadPhase::Unmapping { remaining, .. } | LoadPhase::Releasing { remaining, .. } =>
            remaining as int,
        LoadPhase::Failed(_) => 0,
    }
}

/// The addresses of the first `count` requests.
pub open spec fn addresses(pages: Seq<PageRequest>, count: int) -> Seq<u64> {
    Seq::new(count as nat, |i: int| pages[i].page)
}

pub proof fn lemma_copy_from(parts: Seq<SegmentPlan>, pages: Seq<PageRequest>, segment: int)
    requires
        0 <= segment,
        parts.len() <= 8,
    ensures
        live(pages, elf_load::copy_from(parts, segment)) == pages.len(),
        elf_load::phase_valid(parts, pages, elf_load::copy_from(parts, segment)),
    decreases parts.len() - segment,
{
    if segment < parts.len() && parts[segment].file_size == 0 {
        lemma_copy_from(parts, pages, segment + 1);
    }
}

/// At any point of a load the pages it has mapped and not handed back are the first requests,
/// as many as its phase says. A failed load has handed back every page, the last mapped first;
/// a finished load has mapped exactly the pages that were asked for.
pub proof fn law_failed_loads_leave_nothing(
    parts: Seq<SegmentPlan>,
    pages: Seq<PageRequest>,
    events: Seq<LoadEvent>,
)
    requires
        parts.len() <= 8,
        1 <= pages.len() <= 65,
        forall|i: int| 0 <= i < parts.len() ==> elf_load::part_in_range(#[trigger] parts[i]),
    ensures
        ({
            let phase = phase_after(parts, pages, events);
            &&& elf_load::phase_valid(parts, pages, phase)
            &&& 0 <= live(pages, phase) <= pages.len()
            &&& outstanding(parts, pages, events) == addresses(pages, live(pages, phase))
            &&& phase is Failed ==> outstanding(parts, pages, events).len() == 0
            &&& phase is Loaded ==> outstanding(parts, pages, events) == addresses(
                pages,
                pages.len() as int,
            )
        }),
    decreases events.len(),
{
    if events.len() > 0 {
        let less = events.drop_last();
        law_failed_loads_leave_nothing(parts, pages, less);
        let before = phase_after(parts, pages, less);
        let after = phase_after(parts, pages, events);
        lemma_copy_from(parts, pages, 0);
        match (before, events.last()) {
            (LoadPhase::Mapping(index), LoadEvent::Mapped(Ok(_))) => {
                assert(addresses(pages, index as int).push(pages[index as int].page) =~= addresses(
                    pages,
                    index + 1,
                ));
            },
            (LoadPhase::Copying { segment, copied, .. }, LoadEvent::Copied) => {
                lemma_copy_from(parts, pages, segment + 1);
                assert(elf_load::part_in_range(parts[segment as int]));
            },
            (LoadPhase::Unmapping { remaining, .. }, LoadEvent::Unmapped(_)) => {
                assert(addresses(pages, remaining as int).last() == pages[remaining - 1].page);
                assert(addresses(pages, remaining as int).drop_last() =~= addresses(
                    pages,
                    remaining - 1,
                ));
            },
            _ => {},
        }
    } else {
        assert(addresses(pages, 0) =~= Seq::<u64>::empty());
    }
    if phase_after(parts, pages, events) is Failed {
        assert(addresses(pages, 0).len() == 0);
    }
}

/// The bytes of file data in the segments from `segment` on.
pub open spec fn bytes_from(parts: Seq<SegmentPlan>, segment: int) -> int
    decreases parts.len() - segment,
{
    if segment < 0 || segment >= parts.len() {
        0
    } else {
        parts[segment].file_size + bytes_from(parts, segment + 1)
    }
}

/// A bound on the events that a load still waits for.
pub open spec fn work_left(
    parts: Seq<SegmentPlan>,
    pages: Seq<PageRequest>,
    phase: LoadPhase,
) -> int {
    let copying = 2 * pages.len() + 2 * bytes_from(parts, 0) + 1;
    match phase {
        LoadPhase::Probing(index) => copying + 2 * (pages.len() - index),
        LoadPhase::Mapping(index) => copying + 2 * (pages.len() - index) - 1,
        LoadPhase::Locating { segment, copied } => 2 * pages.len() + 2 * (bytes_from(
            parts,
            segment as int,
        ) - copied),
        LoadPhase::Copying { segment, copied, .. } => 2 * pages.len() + 2 * (bytes_from(
            parts,
            segment as int,
        ) - copied) - 1,
        LoadPhase::Unmapping { remaining, .. } => 2 * remaining,
        LoadPhase::Releasing { remaining, .. } => 2 * remaining + 1,
        LoadPhase::Loaded | LoadPhase::Failed(_) => 0,
    }
}

/// `event` is a report on the action that `phase` asks for.
pub open spec fn awaited(phase: LoadPhase, event: LoadEvent) -> bool {
    match phase {
        LoadPhase::Probing(_) | LoadPhase::Locating { .. } => event is Translated,
        LoadPhase::Mapping(_) => event is Mapped,
        LoadPhase::Copying { .. } => event is Copied,
        LoadPhase::Unmapping { .. } => event is Unmapped,
        LoadPhase::Releasing { .. } => event is Released,
        LoadPhase::Loaded | LoadPhase::Failed(_) => false,
    }
}

proof fn lemma_bytes_from(parts: Seq<SegmentPlan>, segment: int)
    requires
        0 <= segment,
    ensures
        0 <= bytes_from(parts, segment),
    decreases parts.len() - segment,
{
    if segment < parts.len() {
        lemma_bytes_from(parts, segment + 1);
    }
}

proof fn lemma_copy_from_work(parts: Seq<SegmentPlan>, pages: Seq<PageRequest>, segment: int)
    requires
        0 <= segment,
        parts.len() <= 8,
    ensures
        0 <= work_left(parts, pages, elf_load::copy_from(parts, segment)) <= 2 * pages.len() + 2
            * bytes_from(parts, segment),
    decreases parts.len() - segment,
{
    lemma_bytes_from(parts, segment);
    if segment < parts.len() && parts[segment].file_size == 0 {
        lemma_copy_from_work(parts, pages, segment + 1);
    }
}

/// Every awaited report brings a load closer to its end, so each load ends.
pub proof fn law_loads_make_progress(
    parts: Seq<SegmentPlan>,
    pages: Seq<PageRequest>,
    phase: LoadPhase,
    event: LoadEvent,
)
    requires
        parts.len() <= 8,
        1 <= pages.len() <= 65,
        forall|i: int| 0 <= i < parts.len() ==> elf_load::part_in_range(#[trigger] parts[i]),
        elf_load::phase_valid(parts, pages, phase),
        awaited(phase, event),
    ensures
        0 <= work_left(parts, pages, elf_load::next_phase(parts, pages, phase, event)) < work_left(
            parts,
            pages,
            phase,
        ),
{
    lemma_bytes_from(parts, 0);
    lemma_copy_from_work(parts, pages, 0);
    match phase {
        LoadPhase::Locating { segment, copied } => {
            assert(elf_load::part_in_range(parts[segment as int]));
            lemma_bytes_from(parts, segment + 1);
        },
        LoadPhase::Copying { segment, copied, .. } => {
            assert(elf_load::part_in_range(parts[segment as int]));
            lemma_bytes_from(parts, segment + 1);
            lemma_copy_from_work(parts, pages, segment + 1);
        },
        _ => {},
    }
}

/// The pages of an accepted image are all different, and none is writable and executable at
/// once; there are as many as the plan counts, and one more for the stack.
pub proof fn law_requests_of_accepted_images(image: Seq<u8>, layout: paging::UserLayout)
    requires
        elf::load_plan(image, layout) is Ok,
    ensures
        ({
            let parts = elf::load_plan(image, layout)->Ok_0;
            let pages = elf_load::requests(parts, layout);
            &&& pages.len() == elf::total_pages(parts) + 1
            &&& pages.len() <= 65
            &&& forall|i: int|
                0 <= i < pages.len() ==> !((#[trigger] pages[i]).permissions.writable
                    && pages[i].permissions.executable)
            &&& forall|i: int, j: int|
                0 <= i < j < pages.len() - 1 ==> (#[trigger] pages[i]).page != (
                #[trigger] pages[j]).page
            &&& forall|i: int|
                0 <= i < pages.len() - 1 ==> layout.base - 4096 < (#[trigger] pages[i]).page
                    < layout.end
        }),
{
    let parts = elf::load_plan(image, layout)->Ok_0;
    elf_laws::law_accepted_parts_sound(image, layout);
    lemma_all_pages(parts, image.len(), layout);
}

proof fn lemma_all_pages(parts: Seq<SegmentPlan>, image_len: nat, layout: paging::UserLayout)
    requires
        forall|i: int|
            0 <= i < parts.len() ==> elf_laws::part_sound(
                #[trigger] parts[i],
                image_len,
                layout,
            ),
        elf_laws::parts_apart(parts),
    ensures
        elf_load::all_pages(parts).len() == elf::total_pages(parts),
        forall|k: int|
            0 <= k < elf_load::all_pages(parts).len() ==> comes_from_part(
                parts,
                #[trigger] elf_load::all_pages(parts)[k],
            ),
        forall|k: int|
            0 <= k < elf_load::all_pages(parts).len() ==> page_sound(
                #[trigger] elf_load::all_pages(parts)[k],
                layout,
            ),
        forall|i: int, j: int|
            0 <= i < j < elf_load::all_pages(parts).len() ==> (
            #[trigger] elf_load::all_pages(parts)[i]).page != (
            #[trigger] elf_load::all_pages(parts)[j]).page,
    decreases parts.len(),
{
    if parts.len() > 0 {
        let less = parts.drop_last();
        let part = parts.last();
        let old_pages = elf_load::all_pages(less);
        let new_pages = elf_load::part_pages(part);
        let pages = elf_load::all_pages(parts);
        assert(elf_laws::part_sound(part, image_len, layout));
        elf::lemma_pages_ordered(part);
        assert forall|i: int, j: int| 0 <= i < j < less.len() implies !(
        #[trigger] less[j]).overlaps(#[trigger] less[i]) by {
            assert(!parts[j].overlaps(parts[i]));
        }
        lemma_all_pages(less, image_len, layout);
        assert forall|k: int| 0 <= k < pages.len() implies comes_from_part(
            parts,
            #[trigger] pages[k],
        ) && page_sound(pages[k], layout) by {
            if k < old_pages.len() {
                assert(pages[k] == old_pages[k]);
                let i = choose|i: int| 0 <= i < less.len() && in_part(#[trigger] less[i], pages[k]);
                assert(in_part(parts[i], pages[k]));
            } else {
                assert(pages[k] == new_pages[k - old_pages.len()]);
                assert(in_part(parts[parts.len() - 1], pages[k]));
            }
        }
        assert forall|i: int, j: int| 0 <= i < j < pages.len() implies (#[trigger] pages[i]).page
            != (#[trigger] pages[j]).page by {
            if j < old_pages.len() {
                assert(old_pages[i].page != old_pages[j].page);
            } else if i >= old_pages.len() {
                assert(pages[i] == new_pages[i - old_pages.len()]);
                assert(pages[j] == new_pages[j - old_pages.len()]);
            } else {
                assert(pages[i] == old_pages[i]);
                assert(pages[j] == new_pages[j - old_pages.len()]);
                let p = choose|p: int| 0 <= p < less.len() && in_part(#[trigger] less[p], pages[i]);
                assert(!parts[parts.len() - 1].overlaps(parts[p]));
            }
        }
    }
}

/// `request` asks for a page of `part`, with its rights.
pub open spec fn in_part(part: SegmentPlan, request: PageRequest) -> bool {
    part.first_page() <= request.page < part.pages_end() && request.permissions == part.rights()
}

/// `request` asks for a page of one of `parts`.
pub open spec fn comes_from_part(parts: Seq<SegmentPlan>, request: PageRequest) -> bool {
    exists|i: int| 0 <= i < parts.len() && in_part(#[trigger] parts[i], request)
}

/// `request` stays in the user region and asks for no page that is writable and executable.
pub open spec fn page_sound(request: PageRequest, layout: paging::UserLayout) -> bool {
    &&& !(request.permissions.writable && request.permissions.executable)
    &&& layout.base - 4096 < request.page < layout.end
}

/// The bytes of `image` that the copies move when `copied` bytes of `part` are in place.
pub open spec fn moved_bytes(image: Seq<u8>, part: SegmentPlan, copied: int) -> Seq<u8>
    decreases part.file_size - copied,
{
    if copied < 0 || copied >= part.file_size {
        Seq::empty()
    } else {
        let length = elf_load::chunk_length(part, copied);
        image.subrange(part.file_offset + copied, part.file_offset + copied + length)
            + moved_bytes(image, part, copied + length)
    }
}

/// No copy crosses the end of a page, and together the copies of a segment move exactly its
/// file data, in order.
pub proof fn law_copies_move_the_file_data(image: Seq<u8>, part: SegmentPlan, copied: int)
    requires
        0 <= copied <= part.file_size,
        part.file_offset + part.file_size <= image.len(),
    ensures
        copied < part.file_size ==> 0 < elf_load::chunk_length(part, copied) && (
        part.virtual_address + copied) % 4096 + elf_load::chunk_length(part, copied) <= 4096,
        moved_bytes(image, part, copied) == image.subrange(
            part.file_offset + copied,
            part.file_offset + part.file_size,
        ),
    decreases part.file_size - copied,
{
    if copied < part.file_size {
        law_copies_move_the_file_data(
            image,
            part,
            copied + elf_load::chunk_length(part, copied),
        );
    }
    assert(moved_bytes(image, part, copied) =~= image.subrange(
        part.file_offset + copied,
        part.file_offset + part.file_size,
    ));
}

/// The pages of each kind are counted one by one.
pub proof fn law_pages_are_counted_by_their_rights(pages: Seq<PageRequest>, request: PageRequest)
    ensures
        elf_load::writable_count(Seq::empty()) == 0,
        elf_load::executable_count(Seq::empty()) == 0,
        elf_load::writable_count(pages.push(request)) == elf_load::writable_count(pages) + if
            request.permissions.writable {
            1int
        } else {
            0
        },
        elf_load::executable_count(pages.push(request)) == elf_load::executable_count(pages) + if
            request.permissions.executable {
            1int
        } else {
            0
        },
{
    assert(pages.push(request).drop_last() =~= pages);
}

/// The loader reports what its last load came to: an image that was loaded, number by number, and
/// no error; or the error, beside what was loaded before. Where nothing was, the numbers are zero.
pub proof fn law_loaders_report_their_outcome(
    state: elf::LoaderState,
    outcome: Result<elf::LoadedImage, elf::LoadError>,
)
    ensures
        ({
            let after = state.after(outcome);
            let report = after.report();
            &&& after.initialized == state.initialized
            &&& report.initialized == state.initialized
            &&& outcome matches Ok(image) ==> {
                &&& after.loaded == Some(image)
                &&& report.loaded
                &&& report.last_error is None
                &&& report.entry_point == image.entry_point
                &&& report.image_start == image.image_start
                &&& report.image_end == image.image_end
                &&& report.stack_top == image.stack_top
                &&& report.load_segments == image.load_segments
                &&& report.mapped_pages == image.mapped_pages
                &&& report.writable_pages == image.writable_pages
                &&& report.executable_pages == image.executable_pages
            }
            &&& outcome matches Err(error) ==> {
                &&& after.loaded == state.loaded
                &&& report.last_error == Some(error)
                &&& report.loaded == (state.loaded is Some)
                &&& state.loaded is None ==> report.entry_point == 0 && report.image_start == 0
                    && report.image_end == 0 && report.stack_top == 0 && report.load_segments == 0
                    && report.mapped_pages == 0 && report.writable_pages == 0
                    && report.executable_pages == 0
            }
        }),
{
}

/// What a finished load reports describes it: the entry point and the top of the stack that it was
/// given, the span of its parts, and how many parts and pages it has, and how many of the pages
/// can be written and how many executed.
pub proof fn law_reports_describe_the_load(machine: elf_load::LoadMachine)
    requires
        machine.wf(),
    ensures
        ({
            let image = machine.image();
            &&& image.entry_point == machine.entry_point()
            &&& image.stack_top == machine.layout().stack_top
            &&& image.load_segments == machine.parts().len()
            &&& image.mapped_pages == machine.pages().len()
            &&& image.mapped_pages == elf::total_pages(machine.parts()) + 1
            &&& image.writable_pages == elf_load::writable_count(machine.pages())
            &&& image.executable_pages == elf_load::executable_count(machine.pages())
            &&& machine.parts().len() > 0 ==> image.image_start == elf::lowest_page(machine.parts())
                && image.image_end == elf::highest_page(machine.parts())
        }),
{
    machine.lemma_wf();
    elf_load::lemma_all_pages_len(machine.parts());
    lemma_count_bound(machine.pages(), |request: PageRequest| request.permissions.writable);
    lemma_count_bound(machine.pages(), |request: PageRequest| request.permissions.executable);
    lemma_span_bound(machine.parts());
}

proof fn lemma_count_bound(pages: Seq<PageRequest>, wanted: spec_fn(PageRequest) -> bool)
    ensures
        elf_load::count_pages(pages, wanted) <= pages.len(),
    decreases pages.len(),
{
    if pages.len() > 0 {
        lemma_count_bound(pages.drop_last(), wanted);
    }
}

proof fn lemma_span_bound(parts: Seq<SegmentPlan>)
    requires
        forall|i: int| 0 <= i < parts.len() ==> elf_load::part_in_range(#[trigger] parts[i]),
    ensures
        0 <= elf::lowest_page(parts) <= u64::MAX,
        0 <= elf::highest_page(parts) <= u64::MAX,
    decreases parts.len(),
{
    if parts.len() > 0 {
        elf::lemma_pages_ordered(parts.last());
        lemma_span_bound(parts.drop_last());
    }
}

} // verus!
