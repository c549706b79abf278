use tobacco_kernel::elf;
use tobacco_kernel::elf::{InitStep, LoadError, LoadedImage, LoaderState, Probes};
use tobacco_kernel::elf_load;
use tobacco_kernel::elf_load::{LoadAction, LoadEvent, LoadMachine, Translation};
use tobacco_kernel::elf_process;
use tobacco_kernel::elf_process::{ProcessAction, ProcessEvent, SpaceReport};
use tobacco_kernel::initramfs;
use tobacco_kernel::initramfs::{ArchiveState, BootModule};
use tobacco_kernel::mkinitramfs;
use tobacco_kernel::paging::{AddressSpaceError, MapError, UserLayout};
use tobacco_kernel::user_program;

const BASE: u64 = 0x4010_0000;

fn layout() -> UserLayout {
    UserLayout {
        base: BASE,
        end: BASE + 0x10_0000,
        stack_page: BASE + 0x20_0000,
        stack_top: BASE + 0x20_1000,
        stack_guard: BASE + 0x1f_f000,
    }
}

fn image() -> Vec<u8> {
    mkinitramfs::build_init_elf()
}

fn put(image: &mut [u8], at: usize, bytes: &[u8]) {
    image[at..at + bytes.len()].copy_from_slice(bytes);
}

fn error_with(at: usize, bytes: &[u8]) -> Option<LoadError> {
    let mut changed = image();
    put(&mut changed, at, bytes);
    elf::validate_image(&changed, &layout()).err()
}

/// Memory that a load can be run against: pages by address.
struct Machine {
    pages: Vec<(u64, Vec<u8>, bool, bool)>,
    fail_at: Option<usize>,
    mapped: usize,
    freed: Vec<u64>,
}

impl Machine {
    fn new(fail_at: Option<usize>) -> Self {
        Machine { pages: Vec::new(), fail_at, mapped: 0, freed: Vec::new() }
    }

    fn translate(&self, address: u64) -> Translation {
        for (page, _, writable, executable) in &self.pages {
            if *page <= address && address < page + 4096 {
                return Translation {
                    mapped: true,
                    user_accessible: true,
                    writable: *writable,
                    executable: *executable,
                    phys: address - BASE + 0x100_0000,
                };
            }
        }
        Translation {
            mapped: false,
            user_accessible: false,
            writable: false,
            executable: false,
            phys: 0,
        }
    }

    fn byte(&mut self, phys: u64) -> &mut u8 {
        let address = phys - 0x100_0000 + BASE;
        for (page, bytes, _, _) in &mut self.pages {
            if *page <= address && address < *page + 4096 {
                return &mut bytes[(address - *page) as usize];
            }
        }
        panic!("not mapped")
    }

    fn run(&mut self, load: &mut LoadMachine, image: &[u8]) -> Result<LoadedImage, LoadError> {
        for _ in 0..10_000 {
            let event = match load.action() {
                LoadAction::Translate(address) => LoadEvent::Translated(self.translate(address)),
                LoadAction::MapUserPage(request) => {
                    if self.fail_at == Some(self.mapped) {
                        LoadEvent::Mapped(Err(MapError { name: "no frame left" }))
                    } else {
                        self.mapped += 1;
                        self.pages.push((
                            request.page,
                            vec![0; 4096],
                            request.permissions.writable,
                            request.permissions.executable,
                        ));
                        LoadEvent::Mapped(Ok(request.page - BASE + 0x100_0000))
                    }
                }
                LoadAction::CopyBytes { source_offset, destination, length } => {
                    for index in 0..length {
                        *self.byte(destination + index) = image[(source_offset + index) as usize];
                    }
                    LoadEvent::Copied
                }
                LoadAction::UnmapPage(page) => {
                    self.pages.retain(|kept| kept.0 != page);
                    LoadEvent::Unmapped(Ok(page - BASE + 0x100_0000))
                }
                LoadAction::FreeFrame(frame) => {
                    self.freed.push(frame);
                    LoadEvent::Released
                }
                LoadAction::Finished => return load.outcome().unwrap(),
            };
            load.step(event);
        }
        panic!("the load does not end")
    }
}

fn boot(archive: &[u8]) -> ArchiveState {
    let mut state = ArchiveState::empty();
    let module = BootModule {
        start: 0x1000,
        end: 0x1000 + archive.len() as u64,
        valid: true,
        size: archive.len() as u64,
    };
    initramfs::init(&mut state, Some(module), archive);
    state
}

#[test]
fn first_program_is_what_it_should_be() {
    let built = user_program::build_init_elf();
    assert_eq!(built.len(), 0x2010);
    assert_eq!(&built[..], &image()[..]);
    assert_eq!(&built[..7], b"\x7fELF\x02\x01\x01");
    assert_eq!(&built[24..32], &BASE.to_le_bytes());
    assert_eq!(&built[0x1000..0x100a], &user_program::INIT_TEXT_SIGNATURE);
    assert_eq!(&built[0x2000..0x200c], b"Tobacco init");
    assert_eq!(&user_program::INIT_DATA_SIGNATURE, b"Tobacco init");
    assert_eq!(built[0x1046], 0xfd);
    assert_eq!(user_program::INIT_EXPECTED_EXIT_CODE, 42);
    assert_eq!(user_program::INIT_MINIMUM_SYSCALLS, 4);
}

#[test]
fn first_program_is_planned_as_two_segments() {
    let plan = elf::validate_image(&image(), &layout()).ok().unwrap();
    assert_eq!(plan.entry_point, BASE);
    assert_eq!(plan.segment_count, 2);
    assert_eq!(plan.total_pages, 2);
    assert_eq!(plan.image_start, BASE);
    assert_eq!(plan.image_end, BASE + 0x2000);
    let text = plan.segments[0];
    assert!(text.executable && !text.writable);
    assert_eq!(text.file_size, 71);
    let data = plan.segments[1];
    assert!(data.writable && !data.executable);
    assert_eq!(data.memory_size, 4096);
    assert_eq!(data.page_start(), BASE + 0x1000);
    assert_eq!(data.memory_end(), BASE + 0x2000);
    assert_eq!(data.page_end(), BASE + 0x2000);
    assert!(data.permissions().writable);
}

#[test]
fn bad_elf_headers_are_told_apart() {
    let small = elf::validate_image(&image()[..63], &layout()).err();
    assert!(small == Some(LoadError::ImageTooSmall));
    assert!(error_with(0, &[0]) == Some(LoadError::BadMagic));
    assert!(error_with(4, &[1]) == Some(LoadError::UnsupportedClass));
    assert!(error_with(5, &[2]) == Some(LoadError::UnsupportedEndianness));
    assert!(error_with(6, &[0]) == Some(LoadError::UnsupportedIdentVersion));
    assert!(error_with(16, &[3]) == Some(LoadError::UnsupportedType));
    assert!(error_with(18, &[3]) == Some(LoadError::UnsupportedMachine));
    assert!(error_with(20, &[2]) == Some(LoadError::UnsupportedVersion));
    assert!(error_with(52, &[65]) == Some(LoadError::InvalidHeaderSize));
    assert!(error_with(54, &[57]) == Some(LoadError::InvalidProgramHeaderSize));
    assert!(error_with(56, &[0]) == Some(LoadError::InvalidProgramHeaderCount));
    assert!(error_with(56, &[33]) == Some(LoadError::InvalidProgramHeaderCount));
    let far = 0x2010u64.to_le_bytes();
    assert!(error_with(32, &far) == Some(LoadError::ProgramHeaderTableOutsideImage));
}

#[test]
fn bad_segments_are_told_apart() {
    let word = |value: u64| value.to_le_bytes();
    assert!(error_with(64 + 32, &word(72)) == Some(LoadError::SegmentFileLargerThanMemory));
    assert!(error_with(64 + 8, &word(0x2000)) == Some(LoadError::SegmentOutsideImage));
    assert!(error_with(64 + 16, &word(u64::MAX)) == Some(LoadError::SegmentAddressOverflow));
    assert!(error_with(64 + 16, &word(BASE - 1)) == Some(LoadError::SegmentOutsideUserRegion));
    assert!(error_with(64 + 48, &word(24)) == Some(LoadError::SegmentAlignmentInvalid));
    assert!(error_with(64 + 16, &word(BASE + 1)) == Some(LoadError::SegmentAlignmentInvalid));
    assert!(error_with(64 + 4, &[1]) == Some(LoadError::SegmentMissingReadPermission));
    assert!(error_with(64 + 4, &[7]) == Some(LoadError::WritableExecutableSegment));
    assert!(error_with(120 + 16, &word(BASE)) == Some(LoadError::SegmentPageOverlap));
    assert!(error_with(120 + 40, &word(0x4_0000)) == Some(LoadError::TooManyLoadPages));
    assert!(error_with(24, &word(BASE + 71)) == Some(LoadError::EntryOutsideExecutableSegment));
    let mut none = image();
    put(&mut none, 64, &[2]);
    put(&mut none, 120, &[2]);
    assert!(elf::validate_image(&none, &layout()).err() == Some(LoadError::NoLoadSegments));
    let mut many = image();
    put(&mut many, 56, &[9]);
    for index in 0..9usize {
        let at = 64 + 56 * index;
        put(&mut many, at, &1u32.to_le_bytes());
        put(&mut many, at + 4, &5u32.to_le_bytes());
        put(&mut many, at + 8, &word(0));
        put(&mut many, at + 16, &word(BASE + 4096 * index as u64));
        put(&mut many, at + 32, &word(0));
        put(&mut many, at + 40, &word(4096));
        put(&mut many, at + 48, &word(0));
    }
    assert!(elf::validate_image(&many, &layout()).err() == Some(LoadError::TooManyLoadSegments));
}

#[test]
fn a_load_puts_the_program_into_memory() {
    let image = image();
    let archive = mkinitramfs::build_initramfs(&image);
    let files = boot(&archive);
    let mut state = LoaderState::new();
    let mut machine = Machine::new(None);
    let outcome = match elf::init(&mut state, &files, &archive, &layout()) {
        InitStep::Load(mut load) => machine.run(&mut load, &image),
        InitStep::Done(_) => panic!("nothing was loaded"),
    };
    let report = elf::finish_init(&mut state, outcome);
    assert!(report.initialized && report.loaded && report.last_error.is_none());
    assert_eq!(report.entry_point, BASE);
    assert_eq!(report.image_start, BASE);
    assert_eq!(report.image_end, BASE + 0x2000);
    assert_eq!(report.stack_top, layout().stack_top);
    assert_eq!(report.load_segments, 2);
    assert_eq!(report.mapped_pages, 3);
    assert_eq!(report.writable_pages, 2);
    assert_eq!(report.executable_pages, 1);
    assert!(elf::loaded_image(&state).is_some());
    assert_eq!(machine.pages.len(), 3);
    assert_eq!(&machine.pages[0].1[..71], &image[0x1000..0x1047]);
    assert_eq!(&machine.pages[1].1[..12], b"Tobacco init");
    assert_eq!(machine.pages[1].1[128], 0);

    let wanted = elf::probe_addresses(&state, &layout());
    assert_eq!(wanted.bss_byte, BASE + 0x1000 + 128);
    assert_eq!(wanted.guard, layout().stack_guard);
    let mut probes = Probes {
        text: machine.translate(wanted.text),
        data: machine.translate(wanted.data),
        stack: machine.translate(wanted.stack),
        guard_mapped: machine.translate(wanted.guard).mapped,
        text_bytes: machine.pages[0].1[..10].iter().map(|byte| Some(*byte)).collect(),
        data_bytes: machine.pages[1].1[..12].iter().map(|byte| Some(*byte)).collect(),
        bss_byte: Some(machine.pages[1].1[128]),
    };
    assert!(elf::selftest(&state, &probes, &files, &archive, &layout()));
    probes.text_bytes[3] = None;
    assert!(!elf::selftest(&state, &probes, &files, &archive, &layout()));

    assert!(matches!(
        elf::init(&mut state, &files, &archive, &layout()),
        InitStep::Done(Ok(again)) if again.mapped_pages == 3
    ));
}

#[test]
fn a_failed_load_leaves_nothing() {
    for fail_at in 0..3usize {
        let mut machine = Machine::new(Some(fail_at));
        let mut load = elf_load::load_image(&image(), &layout()).ok().unwrap();
        let outcome = machine.run(&mut load, &image());
        let cause = MapError { name: "no frame left" };
        if fail_at < 2 {
            assert!(outcome.err() == Some(LoadError::PageMappingFailed(cause)));
        } else {
            assert!(outcome.err() == Some(LoadError::StackMappingFailed(cause)));
        }
        assert!(machine.pages.is_empty());
        assert_eq!(machine.freed.len(), fail_at);
    }
}

#[test]
fn a_load_does_not_touch_pages_in_use() {
    let mut machine = Machine::new(None);
    machine.pages.push((BASE + 0x1000, vec![9; 4096], true, false));
    let mut load = elf_load::load_image(&image(), &layout()).ok().unwrap();
    let outcome = machine.run(&mut load, &image());
    assert!(outcome.err() == Some(LoadError::TargetPageAlreadyMapped));
    assert_eq!(machine.pages.len(), 1);
    assert_eq!(machine.pages[0].1, vec![9; 4096]);
}

#[test]
fn the_loader_starts_once() {
    let mut state = LoaderState::new();
    let files = ArchiveState::empty();
    assert!(matches!(
        elf::init(&mut state, &files, &[], &layout()),
        InitStep::Done(Err(LoadError::InitProgramMissing))
    ));
    assert!(elf::snapshot(&state).last_error == Some(LoadError::InitProgramMissing));
    assert!(matches!(
        elf::init(&mut state, &files, &[], &layout()),
        InitStep::Done(Err(LoadError::AlreadyLoaded))
    ));
    assert!(elf::loaded_image(&state).is_none());
}

fn run_process(
    audit: SpaceReport,
    fail_create: bool,
) -> (Result<elf::ProcessImage, LoadError>, usize, bool) {
    let image = image();
    let archive = mkinitramfs::build_initramfs(&image);
    let files = boot(&archive);
    let mut process =
        elf_process::create_process_image(&files, &archive, &layout()).ok().unwrap();
    let mut machine = Machine::new(None);
    let mut destroyed = false;
    for _ in 0..10_000 {
        let event = match process.action() {
            ProcessAction::CreateSpace => ProcessEvent::Created(if fail_create {
                Err(AddressSpaceError { name: "no root" })
            } else {
                Ok(())
            }),
            ProcessAction::MapUserPage(request) => {
                machine.pages.push((
                    request.page,
                    vec![0; 4096],
                    request.permissions.writable,
                    request.permissions.executable,
                ));
                ProcessEvent::Mapped(Ok(()))
            }
            ProcessAction::Translate(address) => {
                ProcessEvent::Translated(machine.translate(address))
            }
            ProcessAction::CopyBytes { source_offset, destination, length } => {
                for index in 0..length {
                    *machine.byte(destination + index) = image[(source_offset + index) as usize];
                }
                ProcessEvent::Copied
            }
            ProcessAction::Audit => ProcessEvent::Audited(audit),
            ProcessAction::DestroySpace => {
                destroyed = true;
                ProcessEvent::Destroyed
            }
            ProcessAction::Finished => {
                return (process.outcome().unwrap(), machine.pages.len(), destroyed)
            }
        };
        process.step(event);
    }
    panic!("the process is never made")
}

fn good_audit() -> SpaceReport {
    SpaceReport {
        valid_root: true,
        user_pages: 3,
        writable_executable_pages: 0,
        stack_guard_intact: true,
        mapped_pages: 3,
        table_frames: 4,
        first_user_frame: 0x77_0000,
    }
}

#[test]
fn a_process_is_made_from_the_archive() {
    let (outcome, pages, destroyed) = run_process(good_audit(), false);
    let made = outcome.ok().unwrap();
    assert_eq!(made.entry_point, BASE);
    assert_eq!(made.stack_top, layout().stack_top);
    assert_eq!(made.mapped_pages, 3);
    assert_eq!(made.table_frames, 4);
    assert_eq!(made.first_user_frame, 0x77_0000);
    assert_eq!(pages, 3);
    assert!(!destroyed);
}

#[test]
fn a_failed_process_destroys_its_space() {
    let audits = [
        SpaceReport { valid_root: false, ..good_audit() },
        SpaceReport { user_pages: 2, ..good_audit() },
        SpaceReport { writable_executable_pages: 1, ..good_audit() },
        SpaceReport { stack_guard_intact: false, ..good_audit() },
    ];
    for audit in audits {
        let (outcome, _, destroyed) = run_process(audit, false);
        assert!(outcome.err() == Some(LoadError::MappingLost));
        assert!(destroyed);
    }
    let (outcome, _, destroyed) = run_process(good_audit(), true);
    let cause = AddressSpaceError { name: "no root" };
    assert!(outcome.err() == Some(LoadError::AddressSpaceFailed(cause)));
    assert!(!destroyed);
}

#[test]
fn a_process_needs_its_program() {
    let files = ArchiveState::empty();
    let missing = elf_process::create_process_image(&files, &[], &layout()).err();
    assert!(missing == Some(LoadError::InitProgramMissing));
}

#[test]
fn load_errors_have_names() {
    assert_eq!(elf::load_error_name(LoadError::BadMagic), "ELF magic is invalid");
    let cause = MapError { name: "page is taken" };
    assert_eq!(elf::load_error_name(LoadError::PageMappingFailed(cause)), "page is taken");
    let cause = AddressSpaceError { name: "no root" };
    assert_eq!(elf::load_error_name(LoadError::AddressSpaceFailed(cause)), "no root");
    assert_eq!(
        elf::load_error_name(LoadError::MappingLost),
        "ELF mapping disappeared during load"
    );
}
