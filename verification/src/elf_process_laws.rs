//! What the making of a process image has done to its address space, told from its actions and
//! from what its driver reported on them.
use crate::elf::{LoadError, SegmentPlan};
use crate::elf_copy_laws as copies;
use crate::elf_copy_laws::Move;
use crate::elf_load::PageRequest;
use crate::elf_process::{ProcessAction, ProcessEvent, ProcessPhase, SpaceReport};
use crate::elf_run_laws as runs;
use crate::{elf, elf_load, elf_process, paging};
use vstd::prelude::*;

verus! {

/// What is to be made.
pub struct Job {
    pub parts: Seq<SegmentPlan>,
    pub pages: Seq<PageRequest>,
    pub entry_point: u64,
    pub stack_top: u64,
}

/// The job that an accepted image is.
pub open spec fn job_of(image: Seq<u8>, layout: paging::UserLayout) -> Job {
    let parts = elf::load_plan(image, layout)->Ok_0;
    Job {
        parts,
        pages: elf_load::requests(parts, layout),
        entry_point: elf::entry_of(image),
        stack_top: layout.stack_top,
    }
}

impl Job {
    /// Where the job stands once `events` have been reported.
    pub open spec fn phase(self, events: Seq<ProcessEvent>) -> ProcessPhase {
        elf_process::phase_after(
            self.parts,
            self.pages,
            self.entry_point,
            self.stack_top,
            events,
        )
    }

    /// The action that is asked for once `events` have been reported.
    pub open spec fn asked(self, events: Seq<ProcessEvent>) -> ProcessAction {
        elf_process::action_of(self.parts, self.pages, self.phase(events))
    }

    /// The copies that were asked for and reported as made.
    pub open spec fn moves(self, events: Seq<ProcessEvent>) -> Seq<Move>
        decreases events.len(),
    {
        if events.len() == 0 {
            Seq::empty()
        } else {
            let before = self.moves(events.drop_last());
            match (self.asked(events.drop_last()), events.last()) {
                (
                    ProcessAction::CopyBytes { source_offset, destination, length },
                    ProcessEvent::Copied,
                ) => before.push(
                    Move {
                        source: source_offset as int,
                        destination: destination as int,
                        length: length as int,
                    },
                ),
                _ => before,
            }
        }
    }

    /// The pages that were asked for and reported as mapped.
    pub open spec fn mapped(self, events: Seq<ProcessEvent>) -> Seq<PageRequest>
        decreases events.len(),
    {
        if events.len() == 0 {
            Seq::empty()
        } else {
            let before = self.mapped(events.drop_last());
            match (self.asked(events.drop_last()), events.last()) {
                (ProcessAction::MapUserPage(request), ProcessEvent::Mapped(Ok(_))) => before.push(
                    request,
                ),
                _ => before,
            }
        }
    }

    /// An address space was asked for and reported as created, and not as destroyed since.
    pub open spec fn has_space(self, events: Seq<ProcessEvent>) -> bool
        decreases events.len(),
    {
        if events.len() == 0 {
            false
        } else {
            match (self.asked(events.drop_last()), events.last()) {
                (ProcessAction::CreateSpace, ProcessEvent::Created(Ok(_))) => true,
                (ProcessAction::DestroySpace, ProcessEvent::Destroyed) => false,
                _ => self.has_space(events.drop_last()),
            }
        }
    }

    /// What the last audit that was asked for found.
    pub open spec fn audit(self, events: Seq<ProcessEvent>) -> Option<SpaceReport>
        decreases events.len(),
    {
        if events.len() == 0 {
            None
        } else {
            match (self.asked(events.drop_last()), events.last()) {
                (ProcessAction::Audit, ProcessEvent::Audited(report)) => Some(report),
                _ => self.audit(events.drop_last()),
            }
        }
    }

    /// Every address that was asked about and is mapped was reported where `place` has it.
    pub open spec fn truthful(self, place: spec_fn(int) -> int, events: Seq<ProcessEvent>) -> bool
        decreases events.len(),
    {
        events.len() > 0 ==> {
            &&& self.truthful(place, events.drop_last())
            &&& match (self.asked(events.drop_last()), events.last()) {
                (ProcessAction::Translate(address), ProcessEvent::Translated(found)) => found.mapped
                    ==> found.phys == place(address as int),
                _ => true,
            }
        }
    }

    /// The space was made, every page could be mapped, an address was reported as mapped, and
    /// then as open to the user, where it lies in a mapped page, and the audit found nothing.
    pub open spec fn all_went_well(self, events: Seq<ProcessEvent>) -> bool
        decreases events.len(),
    {
        events.len() > 0 ==> {
            &&& self.all_went_well(events.drop_last())
            &&& match (self.asked(events.drop_last()), events.last()) {
                (ProcessAction::CreateSpace, ProcessEvent::Created(answer)) => answer is Ok,
                (ProcessAction::MapUserPage(_), ProcessEvent::Mapped(answer)) => answer is Ok,
                (ProcessAction::Translate(address), ProcessEvent::Translated(found)) => {
                    &&& found.mapped <==> runs::lies_in(
                        self.mapped(events.drop_last()),
                        address as int,
                    )
                    &&& found.mapped ==> found.user_accessible
                },
                (ProcessAction::Audit, ProcessEvent::Audited(report)) => no_rule_broken(report),
                _ => true,
            }
        }
    }
}

/// The audit found the root valid, as many user pages as were counted, none of them both writable
/// and executable, and the guard below the stack in place.
pub open spec fn no_rule_broken(report: SpaceReport) -> bool {
    &&& report.valid_root
    &&& report.user_pages == report.mapped_pages
    &&& report.writable_executable_pages == 0
    &&& report.stack_guard_intact
}

/// What a phase says of the pages mapped and of the copies made so far.
spec fn fits(
    job: Job,
    image: Seq<u8>,
    place: spec_fn(int) -> int,
    mapped: Seq<PageRequest>,
    moves: Seq<Move>,
    phase: ProcessPhase,
) -> bool {
    match phase {
        ProcessPhase::Creating => mapped.len() == 0 && moves.len() == 0,
        ProcessPhase::Mapping(index) => mapped == job.pages.take(index as int) && moves.len() == 0,
        ProcessPhase::Locating { segment, copied } => mapped == job.pages && copies::in_place(
            image,
            job.parts,
            place,
            moves,
            segment as int,
            copied as int,
        ),
        ProcessPhase::Copying { segment, copied, phys } => mapped == job.pages && copies::in_place(
            image,
            job.parts,
            place,
            moves,
            segment as int,
            copied as int,
        ) && phys == place(job.parts[segment as int].virtual_address + copied),
        ProcessPhase::Auditing | ProcessPhase::Ready(_) => mapped == job.pages && copies::in_place(
            image,
            job.parts,
            place,
            moves,
            job.parts.len() as int,
            0,
        ),
        _ => true,
    }
}

proof fn lemma_copy_from(
    job: Job,
    image: Seq<u8>,
    place: spec_fn(int) -> int,
    moves: Seq<Move>,
    segment: int,
)
    requires
        0 <= segment <= job.parts.len() <= 8,
        copies::in_place(image, job.parts, place, moves, segment, 0),
    ensures
        fits(
            job,
            image,
            place,
            job.pages,
            moves,
            elf_process::copy_from(job.parts, segment),
        ),
    decreases job.parts.len() - segment,
{
    if segment < job.parts.len() && job.parts[segment].file_size == 0 {
        assert(copies::in_place(image, job.parts, place, moves, segment + 1, 0));
        lemma_copy_from(job, image, place, moves, segment + 1);
    }
}

proof fn lemma_valid(job: Job, events: Seq<ProcessEvent>)
    requires
        job.parts.len() <= 8,
        1 <= job.pages.len() <= 65,
        forall|i: int|
            0 <= i < job.parts.len() ==> elf_load::part_in_range(#[trigger] job.parts[i]),
    ensures
        elf_process::phase_valid(job.parts, job.pages, job.phase(events)),
    decreases events.len(),
{
    if events.len() > 0 {
        let less = events.drop_last();
        lemma_valid(job, less);
        elf_process::lemma_copy_from_valid(job.parts, job.pages, 0);
        match job.phase(less) {
            ProcessPhase::Copying { segment, .. } => {
                assert(elf_load::part_in_range(job.parts[segment as int]));
                elf_process::lemma_copy_from_valid(job.parts, job.pages, segment + 1);
            },
            _ => {},
        }
    }
}

#[verifier::rlimit(40)]
proof fn lemma_run(
    job: Job,
    image: Seq<u8>,
    place: spec_fn(int) -> int,
    events: Seq<ProcessEvent>,
)
    requires
        job.parts.len() <= 8,
        1 <= job.pages.len() <= 65,
        forall|i: int|
            0 <= i < job.parts.len() ==> elf_load::part_in_range(#[trigger] job.parts[i]),
        copies::is_memory_map(job.parts, place),
        copies::data_apart(job.parts),
        job.truthful(place, events),
    ensures
        fits(job, image, place, job.mapped(events), job.moves(events), job.phase(events)),
        copies::nothing_else(image, job.parts, place, job.moves(events)),
    decreases events.len(),
{
    if events.len() > 0 {
        let less = events.drop_last();
        lemma_run(job, image, place, less);
        lemma_valid(job, less);
        let parts = job.parts;
        let before = job.phase(less);
        let moves = job.moves(less);
        let more = job.moves(events);
        match (before, events.last()) {
            (ProcessPhase::Creating, ProcessEvent::Created(_)) => {
                assert(job.mapped(less) =~= job.pages.take(0));
            },
            (ProcessPhase::Mapping(index), ProcessEvent::Mapped(Ok(_))) => {
                assert(job.pages.take(index as int).push(job.pages[index as int])
                    =~= job.pages.take(index + 1));
                assert(job.pages.take(job.pages.len() as int) =~= job.pages);
                assert(copies::in_place(image, parts, place, moves, 0, 0));
                lemma_copy_from(job, image, place, moves, 0);
            },
            (ProcessPhase::Locating { segment, .. }, _) => {
                assert(elf_load::part_in_range(parts[segment as int]));
            },
            (ProcessPhase::Copying { segment, copied, phys }, ProcessEvent::Copied) => {
                let part = parts[segment as int];
                assert(elf_load::part_in_range(part));
                let length = elf_load::chunk_length(part, copied as int);
                copies::lemma_move(image, parts, place, moves, segment as int, copied as int);
                assert(more == moves.push(
                    Move {
                        source: part.file_offset + copied,
                        destination: place(part.virtual_address + copied),
                        length,
                    },
                ));
                if copied + length >= part.file_size {
                    assert(copies::in_place(image, parts, place, more, segment + 1, 0)) by {
                        assert forall|k: int, i: int|
                            0 <= k < parts.len() && 0 <= i < parts[k].file_size && (k < segment + 1
                                || (k == segment + 1 && i < 0)) implies #[trigger]
                            copies::byte_in_place(image, parts, place, more, k, i) by {
                            assert(k < segment || i < copied + length);
                        }
                    }
                    lemma_copy_from(job, image, place, more, segment + 1);
                }
            },
            _ => {},
        }
    }
}

/// A process image that is ready has had everything done that it needs: an address space was
/// created, every page was mapped that the image asks for, in order and with the rights that were
/// asked for, and none besides, and every byte of file data stands where its address lies. At no
/// point was anything else written. The driver is only asked to report addresses where they lie.
/// This is for user regions that end before the last page.
#[verifier::rlimit(40)]
pub proof fn law_ready_processes_stand_in_memory(
    image: Seq<u8>,
    layout: paging::UserLayout,
    place: spec_fn(int) -> int,
    events: Seq<ProcessEvent>,
)
    requires
        elf::load_plan(image, layout) is Ok,
        image.len() <= u64::MAX,
        layout.end <= u64::MAX - 4095,
        copies::is_memory_map(elf::load_plan(image, layout)->Ok_0, place),
        job_of(image, layout).truthful(place, events),
    ensures
        ({
            let job = job_of(image, layout);
            let moves = job.moves(events);
            &&& job.phase(events) is Ready ==> {
                &&& job.has_space(events)
                &&& job.mapped(events) == job.pages
                &&& forall|k: int, i: int|
                    0 <= k < job.parts.len() && 0 <= i < job.parts[k].file_size ==> #[trigger]
                    copies::byte_in_place(image, job.parts, place, moves, k, i)
            }
            &&& copies::nothing_else(image, job.parts, place, moves)
        }),
{
    let job = job_of(image, layout);
    runs::lemma_ready(image, layout);
    lemma_run(job, image, place, events);
    law_spaces_last_with_their_process(job, events);
}

/// An address space stands from its creation on, until a failure has had it destroyed. A failure
/// leaves none behind.
pub proof fn law_spaces_last_with_their_process(job: Job, events: Seq<ProcessEvent>)
    requires
        job.parts.len() <= 8,
        1 <= job.pages.len() <= 65,
        forall|i: int|
            0 <= i < job.parts.len() ==> elf_load::part_in_range(#[trigger] job.parts[i]),
    ensures
        job.phase(events) is Ready ==> job.has_space(events),
        job.phase(events) is Failed ==> !job.has_space(events),
        job.has_space(events) <==> !(job.phase(events) is Creating || job.phase(events) is Failed),
    decreases events.len(),
{
    if events.len() > 0 {
        let less = events.drop_last();
        law_spaces_last_with_their_process(job, less);
        elf_process::lemma_copy_from_valid(job.parts, job.pages, 0);
        match job.phase(less) {
            ProcessPhase::Copying { segment, .. } => {
                elf_process::lemma_copy_from_valid(job.parts, job.pages, segment + 1);
            },
            _ => {},
        }
    }
}

/// A process image is ready only behind an audit that found no rule broken. It names the entry
/// point and the top of the stack, and the counts that the audit reported.
pub proof fn law_ready_processes_were_audited(job: Job, events: Seq<ProcessEvent>)
    requires
        job.parts.len() <= 8,
    ensures
        job.phase(events) matches ProcessPhase::Ready(made) ==> {
            let report = job.audit(events)->0;
            &&& job.audit(events) is Some
            &&& no_rule_broken(report)
            &&& made.entry_point == job.entry_point
            &&& made.stack_top == job.stack_top
            &&& made.mapped_pages == report.mapped_pages
            &&& made.table_frames == report.table_frames
            &&& made.first_user_frame == report.first_user_frame
        },
    decreases events.len(),
{
    if events.len() > 0 {
        let less = events.drop_last();
        law_ready_processes_were_audited(job, less);
        elf_process::lemma_copy_from_valid(job.parts, job.pages, 0);
        match job.phase(less) {
            ProcessPhase::Copying { segment, .. } => {
                elf_process::lemma_copy_from_valid(job.parts, job.pages, segment + 1);
            },
            _ => {},
        }
    }
}

/// The making of a process image fails only for a reason: as long as the space can be made, every
/// page can be mapped, what was mapped stays mapped, and the audit finds no rule broken, that of
/// an accepted image is on its way or done.
#[verifier::rlimit(40)]
pub proof fn law_processes_fail_only_for_a_reason(
    image: Seq<u8>,
    layout: paging::UserLayout,
    place: spec_fn(int) -> int,
    events: Seq<ProcessEvent>,
)
    requires
        elf::load_plan(image, layout) is Ok,
        image.len() <= u64::MAX,
        layout.end <= u64::MAX - 4095,
        copies::is_memory_map(elf::load_plan(image, layout)->Ok_0, place),
        job_of(image, layout).truthful(place, events),
        job_of(image, layout).all_went_well(events),
    ensures
        !(job_of(image, layout).phase(events) is Failed),
        !(job_of(image, layout).phase(events) is Destroying),
    decreases events.len(),
{
    if events.len() > 0 {
        let job = job_of(image, layout);
        let less = events.drop_last();
        law_processes_fail_only_for_a_reason(image, layout, place, less);
        runs::lemma_ready(image, layout);
        lemma_run(job, image, place, less);
        lemma_valid(job, less);
        elf_process::lemma_copy_from_valid(job.parts, job.pages, 0);
        match job.phase(less) {
            ProcessPhase::Locating { segment, copied } => {
                runs::lemma_address_is_mapped(image, layout, segment as int, copied as int);
            },
            ProcessPhase::Copying { segment, .. } => {
                elf_process::lemma_copy_from_valid(job.parts, job.pages, segment + 1);
            },
            _ => {},
        }
    }
}

/// Each report that cannot be worked with leads to its own error, which stays what it is until
/// the space is down.
pub proof fn law_process_failures_name_their_reason(
    job: Job,
    phase: ProcessPhase,
    event: ProcessEvent,
)
    ensures
        ({
            let next = elf_process::next_phase(
                job.parts,
                job.pages,
                job.entry_point,
                job.stack_top,
                phase,
                event,
            );
            &&& phase is Creating ==> (event matches ProcessEvent::Created(answer) ==> (
            answer matches Err(error) ==> next == ProcessPhase::Failed(
                LoadError::AddressSpaceFailed(error),
            )))
            &&& phase is Mapping ==> (event matches ProcessEvent::Mapped(answer) ==> (
            answer matches Err(error) ==> next == ProcessPhase::Destroying(
                LoadError::AddressSpaceFailed(error),
            )))
            &&& phase is Locating && event is Translated && !(event->Translated_0.mapped
                && event->Translated_0.user_accessible) ==> next == ProcessPhase::Destroying(
                LoadError::MappingLost,
            )
            &&& phase is Auditing && event is Audited && !no_rule_broken(event->Audited_0) ==> next
                == ProcessPhase::Destroying(LoadError::MappingLost)
            &&& phase matches ProcessPhase::Destroying(error) ==> next == (if event is Destroyed {
                ProcessPhase::Failed(error)
            } else {
                phase
            })
            &&& phase is Ready || phase is Failed ==> next == phase
        }),
{
}

} // verus!
