//! Loading a planned image page by page.
//!
//! Page tables and physical memory are out of reach here. A loader is therefore a machine: it
//! names the next action, its driver performs the action and reports the event.
use crate::{bits, elf, elf_laws, paging};
use crate::elf::{ImagePlan, LoadError, LoadedImage, SegmentPlan};
use vstd::prelude::*;

verus! {

/// What a page walk finds of a user address.
#[derive(Clone, Copy, PartialEq, Eq, Structural)]
pub struct Translation {
    pub mapped: bool,
    pub user_accessible: bool,
    pub writable: bool,
    pub executable: bool,
    pub phys: u64,
}

/// A page to map, and the rights to map it with.
#[derive(Clone, Copy, PartialEq, Eq, Structural)]
pub struct PageRequest {
    pub page: u64,
    pub permissions: paging::UserPagePermissions,
}

/// The pages of one segment, in ascending order.
pub open spec fn part_pages(part: SegmentPlan) -> Seq<PageRequest> {
    Seq::new(
        part.page_count() as nat,
        |i: int|
            PageRequest { page: (part.first_page() + 4096 * i) as u64, permissions: part.rights() },
    )
}

/// The pages of all segments, segment by segment.
pub open spec fn all_pages(parts: Seq<SegmentPlan>) -> Seq<PageRequest>
    decreases parts.len(),
{
    if parts.len() == 0 {
        Seq::empty()
    } else {
        all_pages(parts.drop_last()) + part_pages(parts.last())
    }
}

/// Everything that has to be mapped: the segments' pages, then the stack.
pub open spec fn requests(
    parts: Seq<SegmentPlan>,
    layout: paging::UserLayout,
) -> Seq<PageRequest> {
    all_pages(parts).push(
        PageRequest {
            page: layout.stack_page,
            permissions: paging::UserPagePermissions { writable: true, executable: false },
        },
    )
}

/// The segments of a plan whose arithmetic stays in range.
pub open spec fn parts_in_range(parts: Seq<SegmentPlan>) -> bool {
    &&& elf::total_pages(parts) <= 64
    &&& forall|i: int| 0 <= i < parts.len() ==> part_in_range(#[trigger] parts[i])
}

/// A segment whose arithmetic stays in range.
pub open spec fn part_in_range(part: SegmentPlan) -> bool {
    &&& part.virtual_address + part.memory_size <= u64::MAX
    &&& part.file_size <= part.memory_size
    &&& part.file_offset + part.file_size <= u64::MAX
}

/// There are as many requests for segment pages as the plan counts pages.
pub proof fn lemma_all_pages_len(parts: Seq<SegmentPlan>)
    requires
        forall|i: int| 0 <= i < parts.len() ==> part_in_range(#[trigger] parts[i]),
    ensures
        all_pages(parts).len() == elf::total_pages(parts),
    decreases parts.len(),
{
    if parts.len() > 0 {
        elf::lemma_pages_ordered(parts.last());
        lemma_all_pages_len(parts.drop_last());
    }
}

/// A prefix of the segments touches no more pages than all of them.
proof fn lemma_total_pages_prefix(parts: Seq<SegmentPlan>, count: int)
    requires
        0 <= count <= parts.len(),
        forall|i: int| 0 <= i < parts.len() ==> part_in_range(#[trigger] parts[i]),
    ensures
        0 <= elf::total_pages(parts.take(count)) <= elf::total_pages(parts),
    decreases parts.len(),
{
    if count == parts.len() {
        assert(parts.take(count) =~= parts);
        elf::lemma_total_pages_nonnegative(parts);
    } else {
        elf::lemma_pages_ordered(parts.last());
        assert(parts.drop_last().take(count) =~= parts.take(count));
        lemma_total_pages_prefix(parts.drop_last(), count);
    }
}

/// Lists the pages that a plan needs.
pub fn page_requests(plan: &ImagePlan, layout: &paging::UserLayout) -> (pages: Vec<PageRequest>)
    requires
        plan.consistent(),
        parts_in_range(plan.parts()),
    ensures
        pages@ == requests(plan.parts(), *layout),
{
    let mut pages: Vec<PageRequest> = Vec::new();
    let ghost parts = plan.parts();
    let mut index: usize = 0;
    assert(parts.take(0) =~= Seq::<SegmentPlan>::empty());
    while index < plan.segment_count
        invariant
            index <= plan.segment_count,
            plan.segment_count <= 8,
            parts == plan.parts(),
            parts_in_range(parts),
            pages@ == all_pages(parts.take(index as int)),
        decreases plan.segment_count - index,
    {
        let segment: SegmentPlan = plan.segments[index];
        let ghost done = all_pages(parts.take(index as int));
        assert(segment == parts[index as int]);
        proof {
            elf::lemma_pages_ordered(segment);
        }
        let permissions = segment.permissions();
        let end: u64 = segment.page_end();
        let mut page: u64 = segment.page_start();
        let ghost mut count: int = 0;
        assert(done + part_pages(segment).take(0) =~= done);
        while page < end
            invariant
                end == segment.pages_end(),
                end <= u64::MAX - 4095,
                end == segment.first_page() + 4096 * segment.page_count(),
                page == segment.first_page() + 4096 * count,
                0 <= count <= segment.page_count(),
                permissions == segment.rights(),
                pages@ == done + part_pages(segment).take(count),
            decreases end - page,
        {
            let request = PageRequest { page, permissions };
            pages.push(request);
            proof {
                assert(part_pages(segment)[count] == request);
                assert(pages@ =~= done + part_pages(segment).take(count + 1));
                count = count + 1;
            }
            page = page + paging::PAGE_SIZE_4K;
        }
        assert(count == segment.page_count());
        assert(part_pages(segment).take(count) =~= part_pages(segment));
        assert(parts.take(index + 1).drop_last() =~= parts.take(index as int));
        assert(parts.take(index + 1).last() == segment);
        index = index + 1;
    }
    assert(parts.take(index as int) =~= parts);
    pages.push(
        PageRequest {
            page: layout.stack_page,
            permissions: paging::UserPagePermissions::read_write(),
        },
    );
    pages
}

/// How many of `pages` meet `wanted`.
pub open spec fn count_pages(
    pages: Seq<PageRequest>,
    wanted: spec_fn(PageRequest) -> bool,
) -> nat
    decreases pages.len(),
{
    if pages.len() == 0 {
        0
    } else {
        count_pages(pages.drop_last(), wanted) + if wanted(pages.last()) {
            1nat
        } else {
            0nat
        }
    }
}

/// How many of `pages` are writable.
pub open spec fn writable_count(pages: Seq<PageRequest>) -> nat {
    count_pages(pages, |request: PageRequest| request.permissions.writable)
}

/// How many of `pages` are executable.
pub open spec fn executable_count(pages: Seq<PageRequest>) -> nat {
    count_pages(pages, |request: PageRequest| request.permissions.executable)
}

fn count_rights(pages: &Vec<PageRequest>) -> (r: (u64, u64))
    requires
        pages@.len() <= 65,
    ensures
        r.0 == writable_count(pages@),
        r.1 == executable_count(pages@),
{
    let mut writable_pages: u64 = 0;
    let mut executable_pages: u64 = 0;
    let mut index: usize = 0;
    while index < pages.len()
        invariant
            index <= pages@.len() <= 65,
            writable_pages == writable_count(pages@.take(index as int)),
            executable_pages == executable_count(pages@.take(index as int)),
            writable_pages <= index,
            executable_pages <= index,
        decreases pages@.len() - index,
    {
        assert(pages@.take(index + 1).drop_last() =~= pages@.take(index as int));
        if pages[index].permissions.writable {
            writable_pages = writable_pages + 1;
        }
        if pages[index].permissions.executable {
            executable_pages = executable_pages + 1;
        }
        index = index + 1;
    }
    assert(pages@.take(index as int) =~= pages@);
    (writable_pages, executable_pages)
}

/// How many bytes can be copied at once when `copied` bytes of `part` are in place: up to the
/// end of the page, and not past the end of the file data.
pub open spec fn chunk_length(part: SegmentPlan, copied: int) -> int {
    bits::min_of(4096 - (part.virtual_address + copied) % 4096, part.file_size - copied)
}

pub(crate) fn next_chunk(part: &SegmentPlan, copied: u64) -> (r: u64)
    requires
        part_in_range(*part),
        copied < part.file_size,
    ensures
        r == chunk_length(*part, copied as int),
        0 < r <= part.file_size - copied,
{
    let address: u64 = part.virtual_address + copied;
    assert(address & 0xfff == address % 4096) by (bit_vector);
    let page_offset: u64 = address & (paging::PAGE_SIZE_4K - 1);
    let available: u64 = paging::PAGE_SIZE_4K - page_offset;
    let rest: u64 = part.file_size - copied;
    if available <= rest {
        available
    } else {
        rest
    }
}

/// Where a load stands.
#[derive(Clone, Copy)]
pub enum LoadPhase {
    /// Asking whether the page of this request is still free.
    Probing(usize),
    /// Mapping the page of this request.
    Mapping(usize),
    /// Looking for the memory behind the next bytes of a segment.
    Locating { segment: usize, copied: u64 },
    /// Copying the next bytes of a segment.
    Copying { segment: usize, copied: u64, phys: u64 },
    /// Undoing: the first `remaining` requests are still mapped.
    Unmapping { remaining: usize, error: LoadError },
    /// Undoing: giving back the memory of the page that was just unmapped.
    Releasing { remaining: usize, frame: u64, error: LoadError },
    Loaded,
    Failed(LoadError),
}

/// What the driver of a load has to do next.
#[derive(Clone, Copy)]
pub enum LoadAction {
    Translate(u64),
    MapUserPage(PageRequest),
    CopyBytes { source_offset: u64, destination: u64, length: u64 },
    UnmapPage(u64),
    FreeFrame(u64),
    Finished,
}

/// What the driver of a load has to report.
#[derive(Clone, Copy)]
pub enum LoadEvent {
    Translated(Translation),
    Mapped(Result<u64, paging::MapError>),
    Copied,
    Unmapped(Result<u64, paging::MapError>),
    Released,
}

/// Undoing the first `remaining` mappings because of `error`.
pub open spec fn undo(remaining: int, error: LoadError) -> LoadPhase {
    if remaining == 0 {
        LoadPhase::Failed(error)
    } else {
        LoadPhase::Unmapping { remaining: remaining as usize, error }
    }
}

/// Copying from segment `segment` on: segments without file data are passed over.
pub open spec fn copy_from(parts: Seq<SegmentPlan>, segment: int) -> LoadPhase
    decreases parts.len() - segment,
{
    if segment < 0 || segment >= parts.len() {
        LoadPhase::Loaded
    } else if parts[segment].file_size == 0 {
        copy_from(parts, segment + 1)
    } else {
        LoadPhase::Locating { segment: segment as usize, copied: 0 }
    }
}

/// The phase that `event` leads to. An event that the phase does not wait for changes nothing.
pub open spec fn next_phase(
    parts: Seq<SegmentPlan>,
    pages: Seq<PageRequest>,
    phase: LoadPhase,
    event: LoadEvent,
) -> LoadPhase {
    match (phase, event) {
        (LoadPhase::Probing(index), LoadEvent::Translated(found)) => if found.mapped {
            undo(index as int, LoadError::TargetPageAlreadyMapped)
        } else {
            LoadPhase::Mapping(index)
        },
        (LoadPhase::Mapping(index), LoadEvent::Mapped(Ok(_))) => if index + 1 < pages.len() {
            LoadPhase::Probing((index + 1) as usize)
        } else {
            copy_from(parts, 0)
        },
        (LoadPhase::Mapping(index), LoadEvent::Mapped(Err(error))) => if index + 1 < pages.len() {
            undo(index as int, LoadError::PageMappingFailed(error))
        } else {
            undo(index as int, LoadError::StackMappingFailed(error))
        },
        (LoadPhase::Locating { segment, copied }, LoadEvent::Translated(found)) => if found.mapped
            && found.user_accessible {
            LoadPhase::Copying { segment, copied, phys: found.phys }
        } else {
            undo(pages.len() as int, LoadError::MappingLost)
        },
        (LoadPhase::Copying { segment, copied, .. }, LoadEvent::Copied) => {
            let done = copied + chunk_length(parts[segment as int], copied as int);
            if done < parts[segment as int].file_size {
                LoadPhase::Locating { segment, copied: done as u64 }
            } else {
                copy_from(parts, segment + 1)
            }
        },
        (LoadPhase::Unmapping { remaining, error }, LoadEvent::Unmapped(Ok(frame))) => {
            LoadPhase::Releasing { remaining: (remaining - 1) as usize, frame, error }
        },
        (LoadPhase::Unmapping { remaining, error }, LoadEvent::Unmapped(Err(_))) => undo(
            remaining - 1,
            error,
        ),
        (LoadPhase::Releasing { remaining, error, .. }, LoadEvent::Released) => undo(
            remaining as int,
            error,
        ),
        _ => phase,
    }
}

/// The action that a phase asks for.
pub open spec fn action_of(
    parts: Seq<SegmentPlan>,
    pages: Seq<PageRequest>,
    phase: LoadPhase,
) -> LoadAction {
    match phase {
        LoadPhase::Probing(index) => LoadAction::Translate(pages[index as int].page),
        LoadPhase::Mapping(index) => LoadAction::MapUserPage(pages[index as int]),
        LoadPhase::Locating { segment, copied } => LoadAction::Translate(
            (parts[segment as int].virtual_address + copied) as u64,
        ),
        LoadPhase::Copying { segment, copied, phys } => LoadAction::CopyBytes {
            source_offset: (parts[segment as int].file_offset + copied) as u64,
            destination: phys,
            length: chunk_length(parts[segment as int], copied as int) as u64,
        },
        LoadPhase::Unmapping { remaining, .. } => LoadAction::UnmapPage(pages[remaining - 1].page),
        LoadPhase::Releasing { frame, .. } => LoadAction::FreeFrame(frame),
        LoadPhase::Loaded | LoadPhase::Failed(_) => LoadAction::Finished,
    }
}

/// The phase's numbers point into `parts` and `pages`.
pub open spec fn phase_valid(
    parts: Seq<SegmentPlan>,
    pages: Seq<PageRequest>,
    phase: LoadPhase,
) -> bool {
    match phase {
        LoadPhase::Probing(index) | LoadPhase::Mapping(index) => index < pages.len(),
        LoadPhase::Locating { segment, copied } | LoadPhase::Copying { segment, copied, .. } => segment
            < parts.len() && copied < parts[segment as int].file_size,
        LoadPhase::Unmapping { remaining, .. } => 0 < remaining <= pages.len(),
        LoadPhase::Releasing { remaining, .. } => remaining < pages.len(),
        LoadPhase::Loaded | LoadPhase::Failed(_) => true,
    }
}

pub proof fn lemma_copy_from_valid(parts: Seq<SegmentPlan>, pages: Seq<PageRequest>, segment: int)
    requires
        0 <= segment,
        parts.len() <= usize::MAX,
    ensures
        phase_valid(parts, pages, copy_from(parts, segment)),
        copy_from(parts, segment) is Loaded || copy_from(parts, segment) is Locating,
    decreases parts.len() - segment,
{
    if segment < parts.len() && parts[segment].file_size == 0 {
        lemma_copy_from_valid(parts, pages, segment + 1);
    }
}

/// The load of one image.
pub struct LoadMachine {
    plan: ImagePlan,
    layout: paging::UserLayout,
    pages: Vec<PageRequest>,
    phase: LoadPhase,
}

impl LoadMachine {
    pub closed spec fn parts(&self) -> Seq<SegmentPlan> {
        self.plan.parts()
    }

    pub closed spec fn entry_point(&self) -> u64 {
        self.plan.entry_point
    }

    pub closed spec fn layout(&self) -> paging::UserLayout {
        self.layout
    }

    pub closed spec fn pages(&self) -> Seq<PageRequest> {
        self.pages@
    }

    pub closed spec fn phase(&self) -> LoadPhase {
        self.phase
    }

    closed spec fn plan_consistent(&self) -> bool {
        self.plan.consistent()
    }

    /// The machine's parts belong together.
    pub closed spec fn wf(&self) -> bool {
        &&& self.plan_consistent()
        &&& parts_in_range(self.parts())
        &&& self.pages() == requests(self.parts(), self.layout())
        &&& phase_valid(self.parts(), self.pages(), self.phase())
    }

    /// What a finished load reports.
    pub open spec fn image(&self) -> LoadedImage {
        LoadedImage {
            entry_point: self.entry_point(),
            image_start: elf::lowest_page(self.parts()) as u64,
            image_end: elf::highest_page(self.parts()) as u64,
            stack_top: self.layout().stack_top,
            load_segments: self.parts().len() as u64,
            mapped_pages: self.pages().len() as u64,
            writable_pages: writable_count(self.pages()) as u64,
            executable_pages: executable_count(self.pages()) as u64,
        }
    }

    /// A machine that is well formed has what the laws of loading ask for: segments in range, the
    /// pages that they and the layout call for, and a phase that points into them.
    pub proof fn lemma_wf(&self)
        requires
            self.wf(),
        ensures
            parts_in_range(self.parts()),
            self.parts().len() <= 8,
            self.pages() == requests(self.parts(), self.layout()),
            1 <= self.pages().len() <= 65,
            phase_valid(self.parts(), self.pages(), self.phase()),
    {
        lemma_all_pages_len(self.parts());
    }

    /// What the driver has to do next.
    pub fn action(&self) -> (r: LoadAction)
        requires
            self.wf(),
        ensures
            r == action_of(self.parts(), self.pages(), self.phase()),
    {
        match self.phase {
            LoadPhase::Probing(index) => LoadAction::Translate(self.pages[index].page),
            LoadPhase::Mapping(index) => LoadAction::MapUserPage(self.pages[index]),
            LoadPhase::Locating { segment, copied } => {
                let part: SegmentPlan = self.plan.segments[segment];
                assert(part == self.parts()[segment as int]);
                LoadAction::Translate(part.virtual_address + copied)
            },
            LoadPhase::Copying { segment, copied, phys } => {
                let part: SegmentPlan = self.plan.segments[segment];
                assert(part == self.parts()[segment as int]);
                LoadAction::CopyBytes {
                    source_offset: part.file_offset + copied,
                    destination: phys,
                    length: next_chunk(&part, copied),
                }
            },
            LoadPhase::Unmapping { remaining, .. } => LoadAction::UnmapPage(
                self.pages[remaining - 1].page,
            ),
            LoadPhase::Releasing { frame, .. } => LoadAction::FreeFrame(frame),
            LoadPhase::Loaded => LoadAction::Finished,
            LoadPhase::Failed(_) => LoadAction::Finished,
        }
    }

    /// Takes the driver's report on the last action.
    pub fn step(&mut self, event: LoadEvent)
        requires
            old(self).wf(),
        ensures
            final(self).wf(),
            final(self).parts() == old(self).parts(),
            final(self).entry_point() == old(self).entry_point(),
            final(self).layout() == old(self).layout(),
            final(self).pages() == old(self).pages(),
            final(self).phase() == next_phase(
                old(self).parts(),
                old(self).pages(),
                old(self).phase(),
                event,
            ),
    {
        let count: usize = self.pages.len();
        let ghost parts = self.parts();
        let ghost pages = self.pages();
        proof {
            lemma_copy_from_valid(parts, pages, 0);
        }
        let next: LoadPhase = match (self.phase, event) {
            (LoadPhase::Probing(index), LoadEvent::Translated(found)) => if found.mapped {
                Self::undo_from(index, LoadError::TargetPageAlreadyMapped)
            } else {
                LoadPhase::Mapping(index)
            },
            (LoadPhase::Mapping(index), LoadEvent::Mapped(Ok(_))) => if index + 1 < count {
                LoadPhase::Probing(index + 1)
            } else {
                self.first_copy(0)
            },
            (LoadPhase::Mapping(index), LoadEvent::Mapped(Err(error))) => if index + 1 < count {
                Self::undo_from(index, LoadError::PageMappingFailed(error))
            } else {
                Self::undo_from(index, LoadError::StackMappingFailed(error))
            },
            (LoadPhase::Locating { segment, copied }, LoadEvent::Translated(found)) =>
                if found.mapped && found.user_accessible {
                LoadPhase::Copying { segment, copied, phys: found.phys }
            } else {
                Self::undo_from(count, LoadError::MappingLost)
            },
            (LoadPhase::Copying { segment, copied, .. }, LoadEvent::Copied) => {
                let part: SegmentPlan = self.plan.segments[segment];
                assert(part == parts[segment as int]);
                let done: u64 = copied + next_chunk(&part, copied);
                if done < part.file_size {
                    LoadPhase::Locating { segment, copied: done }
                } else {
                    proof {
                        lemma_copy_from_valid(parts, pages, segment + 1);
                    }
                    self.first_copy(segment + 1)
                }
            },
            (LoadPhase::Unmapping { remaining, error }, LoadEvent::Unmapped(Ok(frame))) => {
                LoadPhase::Releasing { remaining: remaining - 1, frame, error }
            },
            (LoadPhase::Unmapping { remaining, error }, LoadEvent::Unmapped(Err(_))) =>
                Self::undo_from(remaining - 1, error),
            (LoadPhase::Releasing { remaining, error, .. }, LoadEvent::Released) =>
                Self::undo_from(remaining, error),
            _ => self.phase,
        };
        self.phase = next;
    }

    fn undo_from(remaining: usize, error: LoadError) -> (r: LoadPhase)
        ensures
            r == undo(remaining as int, error),
    {
        if remaining == 0 {
            LoadPhase::Failed(error)
        } else {
            LoadPhase::Unmapping { remaining, error }
        }
    }

    fn first_copy(&self, from: usize) -> (r: LoadPhase)
        requires
            self.wf(),
            from <= self.parts().len(),
        ensures
            r == copy_from(self.parts(), from as int),
    {
        let mut segment: usize = from;
        while segment < self.plan.segment_count
            invariant
                self.wf(),
                segment <= self.plan.segment_count,
                copy_from(self.parts(), segment as int) == copy_from(self.parts(), from as int),
            decreases self.plan.segment_count - segment,
        {
            assert(self.plan.segments[segment as int] == self.parts()[segment as int]);
            if self.plan.segments[segment].file_size != 0 {
                return LoadPhase::Locating { segment, copied: 0 };
            }
            segment = segment + 1;
        }
        LoadPhase::Loaded
    }

    /// How the load ended, once it has.
    pub fn outcome(&self) -> (r: Option<Result<LoadedImage, LoadError>>)
        requires
            self.wf(),
        ensures
            r == match self.phase() {
                LoadPhase::Loaded => Some(Ok::<LoadedImage, LoadError>(self.image())),
                LoadPhase::Failed(error) => Some(Err::<LoadedImage, LoadError>(error)),
                _ => None,
            },
    {
        proof {
            lemma_all_pages_len(self.parts());
        }
        match self.phase {
            LoadPhase::Loaded => {
                let (writable_pages, executable_pages) = count_rights(&self.pages);
                Some(
                    Ok(
                        LoadedImage {
                            entry_point: self.plan.entry_point,
                            image_start: self.plan.image_start,
                            image_end: self.plan.image_end,
                            stack_top: self.layout.stack_top,
                            load_segments: self.plan.segment_count as u64,
                            mapped_pages: self.pages.len() as u64,
                            writable_pages,
                            executable_pages,
                        },
                    ),
                )
            },
            LoadPhase::Failed(error) => Some(Err(error)),
            _ => None,
        }
    }
}

/// Checks an image and makes ready to load it.
pub fn load_image(image: &[u8], layout: &paging::UserLayout) -> (r: Result<
    LoadMachine,
    LoadError,
>)
    ensures
        match elf::load_plan(image@, *layout) {
            Ok(parts) => {
                &&& r is Ok
                &&& r->Ok_0.wf()
                &&& r->Ok_0.parts() == parts
                &&& r->Ok_0.entry_point() == elf::entry_of(image@)
                &&& r->Ok_0.layout() == *layout
                &&& r->Ok_0.pages() == requests(parts, *layout)
                &&& r->Ok_0.phase() == LoadPhase::Probing(0)
            },
            Err(error) => r is Err && r->Err_0 == error,
        },
{
    let length: usize = image.len();
    match elf::validate_image(image, layout) {
        Err(error) => Err(error),
        Ok(plan) => {
            proof {
                elf_laws::law_accepted_parts_sound(image@, *layout);
                assert forall|i: int| 0 <= i < plan.parts().len() implies part_in_range(
                    #[trigger] plan.parts()[i],
                ) by {
                    assert(elf_laws::part_sound(plan.parts()[i], image@.len(), *layout));
                }
            }
            let pages: Vec<PageRequest> = page_requests(&plan, layout);
            Ok(LoadMachine { plan, layout: *layout, pages, phase: LoadPhase::Probing(0) })
        },
    }
}

} // verus!
