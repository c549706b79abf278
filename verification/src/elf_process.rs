//! Building the image of a process in an address space of its own.
use crate::{elf, elf_laws, elf_load, initramfs, paging};
use crate::initramfs::ArchiveState;
use crate::elf::{ImagePlan, LoadError, ProcessImage, SegmentPlan};
use crate::elf_load::{PageRequest, Translation};
use vstd::prelude::*;

verus! {

/// What an audit of an address space finds, and the counts that the space keeps of itself.
#[derive(Clone, Copy, PartialEq, Eq, Structural)]
pub struct SpaceReport {
    pub valid_root: bool,
    pub user_pages: u64,
    pub writable_executable_pages: u64,
    pub stack_guard_intact: bool,
    pub mapped_pages: u64,
    pub table_frames: u64,
    pub first_user_frame: u64,
}

impl SpaceReport {
    /// The audit agrees with the counts and finds no broken rule.
    pub open spec fn clean(self) -> bool {
        &&& self.valid_root
        &&& self.user_pages == self.mapped_pages
        &&& self.writable_executable_pages == 0
        &&& self.stack_guard_intact
    }
}

/// Where the making of a process image stands.
#[derive(Clone, Copy)]
pub enum ProcessPhase {
    Creating,
    /// Mapping the page of this request.
    Mapping(usize),
    /// Looking for the memory behind the next bytes of a segment.
    Locating { segment: usize, copied: u64 },
    /// Copying the next bytes of a segment.
    Copying { segment: usize, copied: u64, phys: u64 },
    Auditing,
    /// Taking the address space down again.
    Destroying(LoadError),
    Ready(ProcessImage),
    Failed(LoadError),
}

/// What the driver has to do next.
#[derive(Clone, Copy)]
pub enum ProcessAction {
    CreateSpace,
    MapUserPage(PageRequest),
    Translate(u64),
    CopyBytes { source_offset: u64, destination: u64, length: u64 },
    Audit,
    DestroySpace,
    Finished,
}

/// What the driver has to report.
#[derive(Clone, Copy)]
pub enum ProcessEvent {
    Created(Result<(), paging::AddressSpaceError>),
    Mapped(Result<(), paging::AddressSpaceError>),
    Translated(Translation),
    Copied,
    Audited(SpaceReport),
    Destroyed,
}

/// Copying from segment `segment` on: segments without file data are passed over.
pub open spec fn copy_from(parts: Seq<SegmentPlan>, segment: int) -> ProcessPhase
    decreases parts.len() - segment,
{
    if segment < 0 || segment >= parts.len() {
        ProcessPhase::Auditing
    } else if parts[segment].file_size == 0 {
        copy_from(parts, segment + 1)
    } else {
        ProcessPhase::Locating { segment: segment as usize, copied: 0 }
    }
}

/// The phase that `event` leads to. An event that the phase does not wait for changes nothing.
pub open spec fn next_phase(
    parts: Seq<SegmentPlan>,
    pages: Seq<PageRequest>,
    entry_point: u64,
    stack_top: u64,
    phase: ProcessPhase,
    event: ProcessEvent,
) -> ProcessPhase {
    match (phase, event) {
        (ProcessPhase::Creating, ProcessEvent::Created(Ok(_))) => ProcessPhase::Mapping(0),
        (ProcessPhase::Creating, ProcessEvent::Created(Err(error))) => ProcessPhase::Failed(
            LoadError::AddressSpaceFailed(error),
        ),
        (ProcessPhase::Mapping(index), ProcessEvent::Mapped(Ok(_))) => if index + 1
            < pages.len() {
            ProcessPhase::Mapping((index + 1) as usize)
        } else {
            copy_from(parts, 0)
        },
        (ProcessPhase::Mapping(_), ProcessEvent::Mapped(Err(error))) => ProcessPhase::Destroying(
            LoadError::AddressSpaceFailed(error),
        ),
        (ProcessPhase::Locating { segment, copied }, ProcessEvent::Translated(found)) =>
            if found.mapped && found.user_accessible {
            ProcessPhase::Copying { segment, copied, phys: found.phys }
        } else {
            ProcessPhase::Destroying(LoadError::MappingLost)
        },
        (ProcessPhase::Copying { segment, copied, .. }, ProcessEvent::Copied) => {
            let done = copied + elf_load::chunk_length(parts[segment as int], copied as int);
            if done < parts[segment as int].file_size {
                ProcessPhase::Locating { segment, copied: done as u64 }
            } else {
                copy_from(parts, segment + 1)
            }
        },
        (ProcessPhase::Auditing, ProcessEvent::Audited(report)) => if report.clean() {
            ProcessPhase::Ready(
                ProcessImage {
                    entry_point,
                    stack_top,
                    mapped_pages: report.mapped_pages,
                    table_frames: report.table_frames,
                    first_user_frame: report.first_user_frame,
                },
            )
        } else {
            ProcessPhase::Destroying(LoadError::MappingLost)
        },
        (ProcessPhase::Destroying(error), ProcessEvent::Destroyed) => ProcessPhase::Failed(error),
        _ => phase,
    }
}

/// The action that a phase asks for.
pub open spec fn action_of(
    parts: Seq<SegmentPlan>,
    pages: Seq<PageRequest>,
    phase: ProcessPhase,
) -> ProcessAction {
    match phase {
        ProcessPhase::Creating => ProcessAction::CreateSpace,
        ProcessPhase::Mapping(index) => ProcessAction::MapUserPage(pages[index as int]),
        ProcessPhase::Locating { segment, copied } => ProcessAction::Translate(
            (parts[segment as int].virtual_address + copied) as u64,
        ),
        ProcessPhase::Copying { segment, copied, phys } => ProcessAction::CopyBytes {
            source_offset: (parts[segment as int].file_offset + copied) as u64,
            destination: phys,
            length: elf_load::chunk_length(parts[segment as int], copied as int) as u64,
        },
        ProcessPhase::Auditing => ProcessAction::Audit,
        ProcessPhase::Destroying(_) => ProcessAction::DestroySpace,
        ProcessPhase::Ready(_) | ProcessPhase::Failed(_) => ProcessAction::Finished,
    }
}

/// The phase's numbers point into `parts` and `pages`.
pub open spec fn phase_valid(
    parts: Seq<SegmentPlan>,
    pages: Seq<PageRequest>,
    phase: ProcessPhase,
) -> bool {
    match phase {
        ProcessPhase::Mapping(index) => index < pages.len(),
        ProcessPhase::Locating { segment, copied } | ProcessPhase::Copying {
            segment,
            copied,
            ..
        } => segment < parts.len() && copied < parts[segment as int].file_size,
        _ => true,
    }
}

pub proof fn lemma_copy_from_valid(parts: Seq<SegmentPlan>, pages: Seq<PageRequest>, segment: int)
    requires
        0 <= segment,
        parts.len() <= 8,
    ensures
        phase_valid(parts, pages, copy_from(parts, segment)),
        copy_from(parts, segment) is Auditing || copy_from(parts, segment) is Locating,
    decreases parts.len() - segment,
{
    if segment < parts.len() && parts[segment].file_size == 0 {
        lemma_copy_from_valid(parts, pages, segment + 1);
    }
}

/// The making of one process image.
pub struct ProcessMachine {
    plan: ImagePlan,
    layout: paging::UserLayout,
    pages: Vec<PageRequest>,
    phase: ProcessPhase,
}

impl ProcessMachine {
    pub closed spec fn parts(&self) -> Seq<SegmentPlan> {
        self.plan.parts()
    }

    pub closed spec fn entry_point(&self) -> u64 {
        self.plan.entry_point
    }

    pub closed spec fn layout(&self) -> paging::UserLayout {
        self.layout
    }

    pub closed spec fn pages(&self) -> Seq<PageRequest> {
        self.pages@
    }

    pub closed spec fn phase(&self) -> ProcessPhase {
        self.phase
    }

    closed spec fn plan_consistent(&self) -> bool {
        self.plan.consistent()
    }

    /// The machine's parts belong together.
    pub closed spec fn wf(&self) -> bool {
        &&& self.plan_consistent()
        &&& elf_load::parts_in_range(self.parts())
        &&& self.pages() == elf_load::requests(self.parts(), self.layout())
        &&& phase_valid(self.parts(), self.pages(), self.phase())
    }

    /// A machine that is well formed has what the laws ask for: segments in range, the pages that
    /// they and the layout call for, and a phase that points into them.
    pub proof fn lemma_wf(&self)
        requires
            self.wf(),
        ensures
            elf_load::parts_in_range(self.parts()),
            self.parts().len() <= 8,
            self.pages() == elf_load::requests(self.parts(), self.layout()),
            phase_valid(self.parts(), self.pages(), self.phase()),
    {
    }

    /// What the driver has to do next.
    pub fn action(&self) -> (r: ProcessAction)
        requires
            self.wf(),
        ensures
            r == action_of(self.parts(), self.pages(), self.phase()),
    {
        match self.phase {
            ProcessPhase::Creating => ProcessAction::CreateSpace,
            ProcessPhase::Mapping(index) => ProcessAction::MapUserPage(self.pages[index]),
            ProcessPhase::Locating { segment, copied } => {
                let part: SegmentPlan = self.plan.segments[segment];
                assert(part == self.parts()[segment as int]);
                ProcessAction::Translate(part.virtual_address + copied)
            },
            ProcessPhase::Copying { segment, copied, phys } => {
                let part: SegmentPlan = self.plan.segments[segment];
                assert(part == self.parts()[segment as int]);
                ProcessAction::CopyBytes {
                    source_offset: part.file_offset + copied,
                    destination: phys,
                    length: elf_load::next_chunk(&part, copied),
                }
            },
            ProcessPhase::Auditing => ProcessAction::Audit,
            ProcessPhase::Destroying(_) => ProcessAction::DestroySpace,
            ProcessPhase::Ready(_) => ProcessAction::Finished,
            ProcessPhase::Failed(_) => ProcessAction::Finished,
        }
    }

    /// Takes the driver's report on the last action.
    pub fn step(&mut self, event: ProcessEvent)
        requires
            old(self).wf(),
        ensures
            final(self).wf(),
            final(self).parts() == old(self).parts(),
            final(self).entry_point() == old(self).entry_point(),
            final(self).layout() == old(self).layout(),
            final(self).pages() == old(self).pages(),
            final(self).phase() == next_phase(
                old(self).parts(),
                old(self).pages(),
                old(self).entry_point(),
                old(self).layout().stack_top,
                old(self).phase(),
                event,
            ),
    {
        let count: usize = self.pages.len();
        let ghost parts = self.parts();
        let ghost pages = self.pages();
        proof {
            lemma_copy_from_valid(parts, pages, 0);
        }
        let next: ProcessPhase = match (self.phase, event) {
            (ProcessPhase::Creating, ProcessEvent::Created(Ok(_))) => ProcessPhase::Mapping(0),
            (ProcessPhase::Creating, ProcessEvent::Created(Err(error))) => ProcessPhase::Failed(
                LoadError::AddressSpaceFailed(error),
            ),
            (ProcessPhase::Mapping(index), ProcessEvent::Mapped(Ok(_))) => if index + 1 < count {
                ProcessPhase::Mapping(index + 1)
            } else {
                self.first_copy(0)
            },
            (ProcessPhase::Mapping(_), ProcessEvent::Mapped(Err(error))) =>
                ProcessPhase::Destroying(LoadError::AddressSpaceFailed(error)),
            (ProcessPhase::Locating { segment, copied }, ProcessEvent::Translated(found)) =>
                if found.mapped && found.user_accessible {
                ProcessPhase::Copying { segment, copied, phys: found.phys }
            } else {
                ProcessPhase::Destroying(LoadError::MappingLost)
            },
            (ProcessPhase::Copying { segment, copied, .. }, ProcessEvent::Copied) => {
                let part: SegmentPlan = self.plan.segments[segment];
                assert(part == parts[segment as int]);
                let done: u64 = copied + elf_load::next_chunk(&part, copied);
                if done < part.file_size {
                    ProcessPhase::Locating { segment, copied: done }
                } else {
                    proof {
                        lemma_copy_from_valid(parts, pages, segment + 1);
                    }
                    self.first_copy(segment + 1)
                }
            },
            (ProcessPhase::Auditing, ProcessEvent::Audited(report)) => if !report.valid_root
                || report.user_pages != report.mapped_pages || report.writable_executable_pages
                != 0 || !report.stack_guard_intact {
                ProcessPhase::Destroying(LoadError::MappingLost)
            } else {
                ProcessPhase::Ready(
                    ProcessImage {
                        entry_point: self.plan.entry_point,
                        stack_top: self.layout.stack_top,
                        mapped_pages: report.mapped_pages,
                        table_frames: report.table_frames,
                        first_user_frame: report.first_user_frame,
                    },
                )
            },
            (ProcessPhase::Destroying(error), ProcessEvent::Destroyed) => ProcessPhase::Failed(
                error,
            ),
            _ => self.phase,
        };
        self.phase = next;
    }

    fn first_copy(&self, from: usize) -> (r: ProcessPhase)
        requires
            self.wf(),
            from <= self.parts().len(),
        ensures
            r == copy_from(self.parts(), from as int),
    {
        let mut segment: usize = from;
        while segment < self.plan.segment_count
            invariant
                self.wf(),
                segment <= self.plan.segment_count,
                copy_from(self.parts(), segment as int) == copy_from(self.parts(), from as int),
            decreases self.plan.segment_count - segment,
        {
            assert(self.plan.segments[segment as int] == self.parts()[segment as int]);
            if self.plan.segments[segment].file_size != 0 {
                return ProcessPhase::Locating { segment, copied: 0 };
            }
            segment = segment + 1;
        }
        ProcessPhase::Auditing
    }

    /// How the making of the image ended, once it has.
    pub fn outcome(&self) -> (r: Option<Result<ProcessImage, LoadError>>)
        ensures
            r == match self.phase() {
                ProcessPhase::Ready(image) => Some(Ok::<ProcessImage, LoadError>(image)),
                ProcessPhase::Failed(error) => Some(Err::<ProcessImage, LoadError>(error)),
                _ => None,
            },
    {
        match self.phase {
            ProcessPhase::Ready(image) => Some(Ok(image)),
            ProcessPhase::Failed(error) => Some(Err(error)),
            _ => None,
        }
    }
}

/// Starts making a process of the program `/bin/init` of the archive.
pub fn create_process_image(files: &ArchiveState, archive: &[u8], layout: &paging::UserLayout) -> (r:
    Result<ProcessMachine, LoadError>)
    ensures
        match initramfs::requested(
            files.report(),
            archive@,
            vstd::utf8::encode_utf8("/bin/init"@),
        ) {
            None => r is Err && r->Err_0 == LoadError::InitProgramMissing,
            Some(file) => match elf::load_plan(file.data, *layout) {
                Ok(parts) => {
                    &&& r is Ok
                    &&& r->Ok_0.wf()
                    &&& r->Ok_0.parts() == parts
                    &&& r->Ok_0.entry_point() == elf::entry_of(file.data)
                    &&& r->Ok_0.layout() == *layout
                    &&& r->Ok_0.pages() == elf_load::requests(parts, *layout)
                    &&& r->Ok_0.phase() == ProcessPhase::Creating
                },
                Err(error) => r is Err && r->Err_0 == error,
            },
        },
{
    let image: &[u8] = match initramfs::find(files, archive, "/bin/init") {
        None => {
            return Err(LoadError::InitProgramMissing);
        },
        Some(file) => file.data,
    };
    let length: usize = image.len();
    match elf::validate_image(image, layout) {
        Err(error) => Err(error),
        Ok(plan) => {
            proof {
                elf_laws::law_accepted_parts_sound(image@, *layout);
                assert forall|i: int|
                    0 <= i < plan.parts().len() implies elf_load::part_in_range(
                    #[trigger] plan.parts()[i],
                ) by {
                    assert(elf_laws::part_sound(plan.parts()[i], image@.len(), *layout));
                }
            }
            let pages: Vec<PageRequest> = elf_load::page_requests(&plan, layout);
            Ok(ProcessMachine { plan, layout: *layout, pages, phase: ProcessPhase::Creating })
        },
    }
}

/// The phase after `events`, from the start of the making of an image.
pub open spec fn phase_after(
    parts: Seq<SegmentPlan>,
    pages: Seq<PageRequest>,
    entry_point: u64,
    stack_top: u64,
    events: Seq<ProcessEvent>,
) -> ProcessPhase
    decreases events.len(),
{
    if events.len() == 0 {
        ProcessPhase::Creating
    } else {
        next_phase(
            parts,
            pages,
            entry_point,
            stack_top,
            phase_after(parts, pages, entry_point, stack_top, events.drop_last()),
            events.last(),
        )
    }
}

/// An address space was created in the course of `events` and not destroyed since.
pub open spec fn space_exists(
    parts: Seq<SegmentPlan>,
    pages: Seq<PageRequest>,
    entry_point: u64,
    stack_top: u64,
    events: Seq<ProcessEvent>,
) -> bool
    decreases events.len(),
{
    if events.len() == 0 {
        false
    } else {
        let less = events.drop_last();
        match (phase_after(parts, pages, entry_point, stack_top, less), events.last()) {
            (ProcessPhase::Creating, ProcessEvent::Created(Ok(_))) => true,
            (ProcessPhase::Destroying(_), ProcessEvent::Destroyed) => false,
            _ => space_exists(parts, pages, entry_point, stack_top, less),
        }
    }
}

/// An address space is left behind exactly by a process image that is ready: every failure
/// takes the space down again.
pub proof fn law_failures_destroy_the_space(
    parts: Seq<SegmentPlan>,
    pages: Seq<PageRequest>,
    entry_point: u64,
    stack_top: u64,
    events: Seq<ProcessEvent>,
)
    requires
        parts.len() <= 8,
    ensures
        ({
            let phase = phase_after(parts, pages, entry_point, stack_top, events);
            let standing = space_exists(parts, pages, entry_point, stack_top, events);
            &&& phase is Ready ==> standing
            &&& phase is Failed ==> !standing
            &&& standing <==> !(phase is Creating || phase is Failed)
        }),
    decreases events.len(),
{
    if events.len() > 0 {
        let less = events.drop_last();
        law_failures_destroy_the_space(parts, pages, entry_point, stack_top, less);
        lemma_copy_from_valid(parts, pages, 0);
        match phase_after(parts, pages, entry_point, stack_top, less) {
            ProcessPhase::Copying { segment, .. } => {
                lemma_copy_from_valid(parts, pages, segment + 1);
            },
            _ => {},
        }
    }
}

} // verus!
