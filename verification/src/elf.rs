//! Checking ELF64 images and planning where their segments go.
use crate::elf_load::{LoadMachine, LoadPhase, Translation};
use crate::initramfs::ArchiveState;
use crate::{bits, bytes, elf_load, initramfs, paging, user_program};
use vstd::prelude::*;

verus! {

pub const ELF_HEADER_SIZE: usize = 64;

pub const PROGRAM_HEADER_SIZE: usize = 56;

pub const MAX_PROGRAM_HEADERS: usize = 32;

pub const MAX_LOAD_SEGMENTS: usize = 8;

pub const MAX_LOAD_PAGES: u64 = 64;

const PT_LOAD: u32 = 1;

const PF_EXECUTE: u32 = 1;

const PF_WRITE: u32 = 2;

const PF_READ: u32 = 4;

#[derive(Clone, Copy, PartialEq, Eq)]
pub enum LoadError {
    AlreadyLoaded,
    InitProgramMissing,
    ImageTooSmall,
    BadMagic,
    UnsupportedClass,
    UnsupportedEndianness,
    UnsupportedIdentVersion,
    UnsupportedType,
    UnsupportedMachine,
    UnsupportedVersion,
    InvalidHeaderSize,
    InvalidProgramHeaderSize,
    InvalidProgramHeaderCount,
    ProgramHeaderTableOutsideImage,
    NoLoadSegments,
    TooManyLoadSegments,
    SegmentFileLargerThanMemory,
    SegmentOutsideImage,
    SegmentAddressOverflow,
    SegmentOutsideUserRegion,
    SegmentAlignmentInvalid,
    SegmentMissingReadPermission,
    WritableExecutableSegment,
    SegmentPageOverlap,
    TooManyLoadPages,
    EntryOutsideExecutableSegment,
    TargetPageAlreadyMapped,
    PageMappingFailed(paging::MapError),
    StackMappingFailed(paging::MapError),
    AddressSpaceFailed(paging::AddressSpaceError),
    MappingLost,
}

/// What a finished load has put into memory.
#[derive(Clone, Copy, PartialEq, Eq, Structural)]
pub struct LoadedImage {
    pub entry_point: u64,
    pub image_start: u64,
    pub image_end: u64,
    pub stack_top: u64,
    pub load_segments: u64,
    pub mapped_pages: u64,
    pub writable_pages: u64,
    pub executable_pages: u64,
}

/// What is known of a process whose address space has been filled.
#[derive(Clone, Copy, PartialEq, Eq, Structural)]
pub struct ProcessImage {
    pub entry_point: u64,
    pub stack_top: u64,
    pub mapped_pages: u64,
    pub table_frames: u64,
    pub first_user_frame: u64,
}

/// A piece of the image that is to be copied into user memory.
#[derive(Clone, Copy, PartialEq, Eq, Structural)]
pub struct SegmentPlan {
    pub file_offset: u64,
    pub virtual_address: u64,
    pub file_size: u64,
    pub memory_size: u64,
    pub writable: bool,
    pub executable: bool,
}

impl SegmentPlan {
    /// The address of the first page that the segment touches.
    pub open spec fn first_page(self) -> int {
        bits::floor_to(self.virtual_address as int, 4096)
    }

    /// The address just past the last page that the segment touches.
    pub open spec fn pages_end(self) -> int {
        bits::sat_ceil_to(self.virtual_address + self.memory_size, 4096)
    }

    /// How many pages the segment touches.
    pub open spec fn page_count(self) -> int {
        (self.pages_end() - self.first_page()) / 4096
    }

    /// The two segments share a page.
    pub open spec fn overlaps(self, other: SegmentPlan) -> bool {
        self.first_page() < other.pages_end() && other.first_page() < self.pages_end()
    }

    /// `address` lies in the segment's memory.
    pub open spec fn covers(self, address: u64) -> bool {
        self.virtual_address <= address < self.virtual_address + self.memory_size
    }

    /// The rights that the segment's pages get.
    pub open spec fn rights(self) -> paging::UserPagePermissions {
        paging::UserPagePermissions { writable: self.writable, executable: self.executable }
    }

    /// A segment that stands for nothing.
    pub fn empty() -> (r: Self)
        ensures
            r == (SegmentPlan {
                file_offset: 0,
                virtual_address: 0,
                file_size: 0,
                memory_size: 0,
                writable: false,
                executable: false,
            }),
    {
        SegmentPlan {
            file_offset: 0,
            virtual_address: 0,
            file_size: 0,
            memory_size: 0,
            writable: false,
            executable: false,
        }
    }

    pub fn page_start(self) -> (r: u64)
        ensures
            r == self.first_page(),
    {
        proof {
            bits::lemma_small_pow2();
        }
        bits::align_down(self.virtual_address, paging::PAGE_SIZE_4K)
    }

    pub fn memory_end(self) -> (r: u64)
        requires
            self.virtual_address + self.memory_size <= u64::MAX,
        ensures
            r == self.virtual_address + self.memory_size,
    {
        self.virtual_address + self.memory_size
    }

    pub fn page_end(self) -> (r: u64)
        requires
            self.virtual_address + self.memory_size <= u64::MAX,
        ensures
            r == self.pages_end(),
    {
        proof {
            bits::lemma_small_pow2();
        }
        bits::align_up(self.memory_end(), paging::PAGE_SIZE_4K)
    }

    pub fn permissions(self) -> (r: paging::UserPagePermissions)
        ensures
            r == self.rights(),
    {
        paging::UserPagePermissions { writable: self.writable, executable: self.executable }
    }
}

/// What is to be loaded, and where.
pub struct ImagePlan {
    pub entry_point: u64,
    pub image_start: u64,
    pub image_end: u64,
    pub total_pages: u64,
    pub segment_count: usize,
    pub segments: [SegmentPlan; MAX_LOAD_SEGMENTS],
}

impl ImagePlan {
    /// The segments of the plan, in the order of the image's headers.
    pub open spec fn parts(&self) -> Seq<SegmentPlan> {
        self.segments@.take(self.segment_count as int)
    }

    /// The plan's numbers are those of its segments.
    pub open spec fn consistent(&self) -> bool {
        &&& self.segment_count <= MAX_LOAD_SEGMENTS
        &&& self.image_start == lowest_page(self.parts())
        &&& self.image_end == highest_page(self.parts())
        &&& self.total_pages == total_pages(self.parts())
    }
}

/// The page at which the lowest of `parts` starts, the largest address where there is none.
pub open spec fn lowest_page(parts: Seq<SegmentPlan>) -> int
    decreases parts.len(),
{
    if parts.len() == 0 {
        u64::MAX as int
    } else {
        bits::min_of(lowest_page(parts.drop_last()), parts.last().first_page())
    }
}

/// The address past the last page of the highest of `parts`, zero where there is none.
pub open spec fn highest_page(parts: Seq<SegmentPlan>) -> int
    decreases parts.len(),
{
    if parts.len() == 0 {
        0
    } else {
        bits::max_of(highest_page(parts.drop_last()), parts.last().pages_end())
    }
}

/// How many pages `parts` touch together.
pub open spec fn total_pages(parts: Seq<SegmentPlan>) -> int
    decreases parts.len(),
{
    if parts.len() == 0 {
        0
    } else {
        total_pages(parts.drop_last()) + parts.last().page_count()
    }
}

/// `entry` lies in an executable one of `parts`.
pub open spec fn entry_covered(entry: u64, parts: Seq<SegmentPlan>) -> bool {
    exists|i: int| 0 <= i < parts.len() && #[trigger] parts[i].executable && parts[i].covers(entry)
}

/// The entry point that the ELF header names.
pub open spec fn entry_of(image: Seq<u8>) -> u64 {
    bytes::le_at(image, 24, 8) as u64
}

/// How many program headers the ELF header announces.
pub open spec fn header_count(image: Seq<u8>) -> nat {
    bytes::le_at(image, 56, 2)
}

/// Where program header `index` starts.
pub open spec fn header_start(image: Seq<u8>, index: int) -> int {
    bytes::le_at(image, 32, 8) + index * 56
}

/// What is wrong with the ELF header and the extent of the program header table: the first
/// of the checks, in this order, that fails.
pub open spec fn header_error(image: Seq<u8>) -> Option<LoadError> {
    if image.len() < 64 {
        Some(LoadError::ImageTooSmall)
    } else if image.take(4) != seq![0x7fu8, 0x45u8, 0x4cu8, 0x46u8] {
        Some(LoadError::BadMagic)
    } else if image[4] != 2 {
        Some(LoadError::UnsupportedClass)
    } else if image[5] != 1 {
        Some(LoadError::UnsupportedEndianness)
    } else if image[6] != 1 {
        Some(LoadError::UnsupportedIdentVersion)
    } else if bytes::le_at(image, 16, 2) != 2 {
        Some(LoadError::UnsupportedType)
    } else if bytes::le_at(image, 18, 2) != 62 {
        Some(LoadError::UnsupportedMachine)
    } else if bytes::le_at(image, 20, 4) != 1 {
        Some(LoadError::UnsupportedVersion)
    } else if bytes::le_at(image, 52, 2) != 64 {
        Some(LoadError::InvalidHeaderSize)
    } else if bytes::le_at(image, 54, 2) != 56 {
        Some(LoadError::InvalidProgramHeaderSize)
    } else if header_count(image) == 0 || header_count(image) > 32 {
        Some(LoadError::InvalidProgramHeaderCount)
    } else if header_start(image, header_count(image) as int) > image.len() {
        Some(LoadError::ProgramHeaderTableOutsideImage)
    } else {
        None
    }
}

/// The fields of a program header that matter here.
pub struct ProgramHeader {
    pub kind: nat,
    pub flags: nat,
    pub file_offset: nat,
    pub virtual_address: nat,
    pub file_size: nat,
    pub memory_size: nat,
    pub alignment: nat,
}

impl ProgramHeader {
    pub open spec fn readable(self) -> bool {
        (self.flags / 4) % 2 == 1
    }

    pub open spec fn writable(self) -> bool {
        (self.flags / 2) % 2 == 1
    }

    pub open spec fn executable(self) -> bool {
        self.flags % 2 == 1
    }

    /// The header describes memory that has to be there at run time.
    pub open spec fn is_load(self) -> bool {
        self.kind == 1
    }

    /// The addresses in memory and in the file agree modulo the alignment.
    pub open spec fn aligned(self) -> bool {
        self.alignment <= 1 || (bits::is_pow2(self.alignment as int) && self.virtual_address
            % self.alignment == self.file_offset % self.alignment)
    }

    pub open spec fn segment(self) -> SegmentPlan {
        SegmentPlan {
            file_offset: self.file_offset as u64,
            virtual_address: self.virtual_address as u64,
            file_size: self.file_size as u64,
            memory_size: self.memory_size as u64,
            writable: self.writable(),
            executable: self.executable(),
        }
    }

    /// What is wrong with the header by itself: the first of the checks, in this order, that
    /// fails.
    pub open spec fn error(self, image_len: nat, layout: paging::UserLayout) -> Option<LoadError> {
        if self.file_offset + self.file_size > image_len {
            Some(LoadError::SegmentOutsideImage)
        } else if self.virtual_address + self.memory_size > u64::MAX {
            Some(LoadError::SegmentAddressOverflow)
        } else if self.virtual_address < layout.base || self.virtual_address + self.memory_size
            > layout.end {
            Some(LoadError::SegmentOutsideUserRegion)
        } else if !self.aligned() {
            Some(LoadError::SegmentAlignmentInvalid)
        } else if !self.readable() {
            Some(LoadError::SegmentMissingReadPermission)
        } else if self.writable() && self.executable() {
            Some(LoadError::WritableExecutableSegment)
        } else {
            None
        }
    }
}

/// Program header `index` of the image.
pub open spec fn header_at(image: Seq<u8>, index: int) -> ProgramHeader {
    let at = header_start(image, index);
    ProgramHeader {
        kind: bytes::le_at(image, at, 4),
        flags: bytes::le_at(image, at + 4, 4),
        file_offset: bytes::le_at(image, at + 8, 8),
        virtual_address: bytes::le_at(image, at + 16, 8),
        file_size: bytes::le_at(image, at + 32, 8),
        memory_size: bytes::le_at(image, at + 40, 8),
        alignment: bytes::le_at(image, at + 48, 8),
    }
}

/// Takes `header` up into the segments that came before it.
pub open spec fn add_header(
    parts: Seq<SegmentPlan>,
    header: ProgramHeader,
    image_len: nat,
    layout: paging::UserLayout,
) -> Result<Seq<SegmentPlan>, LoadError> {
    let segment = header.segment();
    if !header.is_load() {
        Ok(parts)
    } else if header.file_size > header.memory_size {
        Err(LoadError::SegmentFileLargerThanMemory)
    } else if header.memory_size == 0 {
        Ok(parts)
    } else if header.error(image_len, layout) is Some {
        Err(header.error(image_len, layout)->0)
    } else if parts.len() >= 8 {
        Err(LoadError::TooManyLoadSegments)
    } else if exists|i: int| 0 <= i < parts.len() && segment.overlaps(#[trigger] parts[i]) {
        Err(LoadError::SegmentPageOverlap)
    } else if total_pages(parts) + segment.page_count() > 64 {
        Err(LoadError::TooManyLoadPages)
    } else {
        Ok(parts.push(segment))
    }
}

/// The segments that the first `count` program headers describe, or the first error.
pub open spec fn scan_headers(
    image: Seq<u8>,
    layout: paging::UserLayout,
    count: nat,
) -> Result<Seq<SegmentPlan>, LoadError>
    decreases count,
{
    if count == 0 {
        Ok(Seq::empty())
    } else {
        match scan_headers(image, layout, (count - 1) as nat) {
            Ok(parts) => add_header(parts, header_at(image, count - 1), image.len(), layout),
            Err(error) => Err(error),
        }
    }
}

/// The segments to load, or why the image is refused.
pub open spec fn load_plan(image: Seq<u8>, layout: paging::UserLayout) -> Result<
    Seq<SegmentPlan>,
    LoadError,
> {
    if header_error(image) is Some {
        Err(header_error(image)->0)
    } else {
        match scan_headers(image, layout, header_count(image)) {
            Err(error) => Err(error),
            Ok(parts) => if parts.len() == 0 {
                Err(LoadError::NoLoadSegments)
            } else if !entry_covered(entry_of(image), parts) {
                Err(LoadError::EntryOutsideExecutableSegment)
            } else {
                Ok(parts)
            },
        }
    }
}

fn read_u16(image: &[u8], offset: usize) -> (r: Result<u16, LoadError>)
    ensures
        offset + 2 <= image@.len() ==> r is Ok && r->Ok_0 == bytes::le_at(
            image@,
            offset as int,
            2,
        ),
        offset + 2 > image@.len() ==> r == Err::<u16, LoadError>(LoadError::ImageTooSmall),
{
    if image.len() < 2 || offset > image.len() - 2 {
        return Err(LoadError::ImageTooSmall);
    }
    Ok(bytes::read_u16(image, offset))
}

fn read_u32(image: &[u8], offset: usize) -> (r: Result<u32, LoadError>)
    ensures
        offset + 4 <= image@.len() ==> r is Ok && r->Ok_0 == bytes::le_at(
            image@,
            offset as int,
            4,
        ),
        offset + 4 > image@.len() ==> r == Err::<u32, LoadError>(LoadError::ImageTooSmall),
{
    if image.len() < 4 || offset > image.len() - 4 {
        return Err(LoadError::ImageTooSmall);
    }
    Ok(bytes::read_u32(image, offset))
}

fn read_u64(image: &[u8], offset: usize) -> (r: Result<u64, LoadError>)
    ensures
        offset + 8 <= image@.len() ==> r is Ok && r->Ok_0 == bytes::le_at(
            image@,
            offset as int,
            8,
        ),
        offset + 8 > image@.len() ==> r == Err::<u64, LoadError>(LoadError::ImageTooSmall),
{
    if image.len() < 8 || offset > image.len() - 8 {
        return Err(LoadError::ImageTooSmall);
    }
    Ok(bytes::read_u64(image, offset))
}

/// The first error in the ELF header, if there is one.
fn check_header(image: &[u8]) -> (r: Result<(), LoadError>)
    ensures
        r == match header_error(image@) {
            Some(error) => Err::<(), LoadError>(error),
            None => Ok::<(), LoadError>(()),
        },
{
    if image.len() < ELF_HEADER_SIZE {
        return Err(LoadError::ImageTooSmall);
    }
    assert(image@.take(4) == seq![0x7fu8, 0x45u8, 0x4cu8, 0x46u8] <==> image@[0] == 0x7f
        && image@[1] == 0x45 && image@[2] == 0x4c && image@[3] == 0x46) by {
        let magic = seq![0x7fu8, 0x45u8, 0x4cu8, 0x46u8];
        if image@[0] == 0x7f && image@[1] == 0x45 && image@[2] == 0x4c && image@[3] == 0x46 {
            assert(image@.take(4) =~= magic);
        }
        if image@.take(4) == magic {
            assert(image@.take(4)[0] == 0x7f && image@.take(4)[1] == 0x45 && image@.take(4)[2]
                == 0x4c && image@.take(4)[3] == 0x46);
        }
    }
    if image[0] != 0x7f || image[1] != 0x45 || image[2] != 0x4c || image[3] != 0x46 {
        return Err(LoadError::BadMagic);
    }
    if image[4] != 2 {
        return Err(LoadError::UnsupportedClass);
    }
    if image[5] != 1 {
        return Err(LoadError::UnsupportedEndianness);
    }
    if image[6] != 1 {
        return Err(LoadError::UnsupportedIdentVersion);
    }
    if read_u16(image, 16)? != 2 {
        return Err(LoadError::UnsupportedType);
    }
    if read_u16(image, 18)? != 62 {
        return Err(LoadError::UnsupportedMachine);
    }
    if read_u32(image, 20)? != 1 {
        return Err(LoadError::UnsupportedVersion);
    }
    if read_u16(image, 52)? as usize != ELF_HEADER_SIZE {
        return Err(LoadError::InvalidHeaderSize);
    }
    if read_u16(image, 54)? as usize != PROGRAM_HEADER_SIZE {
        return Err(LoadError::InvalidProgramHeaderSize);
    }
    let program_header_offset: u64 = read_u64(image, 32)?;
    let program_header_count: usize = read_u16(image, 56)? as usize;
    if program_header_count == 0 || program_header_count > MAX_PROGRAM_HEADERS {
        return Err(LoadError::InvalidProgramHeaderCount);
    }
    let table_size: u64 = (program_header_count * PROGRAM_HEADER_SIZE) as u64;
    match program_header_offset.checked_add(table_size) {
        None => Err(LoadError::ProgramHeaderTableOutsideImage),
        Some(table_end) => if table_end > image.len() as u64 {
            Err(LoadError::ProgramHeaderTableOutsideImage)
        } else {
            Ok(())
        },
    }
}

/// Takes one segment up into the plan, or says why the plan has no room for it.
fn add_segment(plan: &mut ImagePlan, segment: SegmentPlan) -> (r: Result<(), LoadError>)
    requires
        old(plan).consistent(),
        total_pages(old(plan).parts()) <= 64,
        segment.memory_size > 0,
        segment.virtual_address + segment.memory_size <= u64::MAX,
        forall|i: int|
            0 <= i < old(plan).parts().len() ==> (#[trigger] old(plan).parts()[i]).virtual_address
                + old(plan).parts()[i].memory_size <= u64::MAX,
    ensures
        final(plan).entry_point == old(plan).entry_point,
        ({
            let parts = old(plan).parts();
            if parts.len() >= 8 {
                r == Err::<(), LoadError>(LoadError::TooManyLoadSegments)
            } else if exists|i: int|
                0 <= i < parts.len() && segment.overlaps(#[trigger] parts[i]) {
                r == Err::<(), LoadError>(LoadError::SegmentPageOverlap)
            } else if total_pages(parts) + segment.page_count() > 64 {
                r == Err::<(), LoadError>(LoadError::TooManyLoadPages)
            } else {
                &&& r is Ok
                &&& final(plan).parts() == parts.push(segment)
                &&& final(plan).consistent()
                &&& total_pages(final(plan).parts()) <= 64
            }
        }),
{
    let ghost parts = plan.parts();
    if plan.segment_count >= MAX_LOAD_SEGMENTS {
        return Err(LoadError::TooManyLoadSegments);
    }
    let start: u64 = segment.page_start();
    let end: u64 = segment.page_end();
    let mut existing_index: usize = 0;
    while existing_index < plan.segment_count
        invariant
            existing_index <= plan.segment_count,
            plan.segment_count < 8,
            plan.parts() == parts,
            start == segment.first_page(),
            end == segment.pages_end(),
            forall|i: int|
                0 <= i < parts.len() ==> (#[trigger] parts[i]).virtual_address
                    + parts[i].memory_size <= u64::MAX,
            forall|i: int| 0 <= i < existing_index ==> !segment.overlaps(#[trigger] parts[i]),
        decreases plan.segment_count - existing_index,
    {
        let existing: SegmentPlan = plan.segments[existing_index];
        assert(existing == parts[existing_index as int]);
        if start < existing.page_end() && existing.page_start() < end {
            assert(segment.overlaps(parts[existing_index as int]));
            return Err(LoadError::SegmentPageOverlap);
        }
        existing_index = existing_index + 1;
    }
    proof {
        lemma_pages_ordered(segment);
    }
    let pages: u64 = (end - start) / paging::PAGE_SIZE_4K;
    if pages > MAX_LOAD_PAGES || plan.total_pages + pages > MAX_LOAD_PAGES {
        proof {
            lemma_total_pages_nonnegative(parts);
        }
        return Err(LoadError::TooManyLoadPages);
    }
    plan.total_pages = plan.total_pages + pages;
    if start < plan.image_start {
        plan.image_start = start;
    }
    if end > plan.image_end {
        plan.image_end = end;
    }
    let slot: usize = plan.segment_count;
    plan.segments[slot] = segment;
    plan.segment_count = slot + 1;
    assert(plan.parts() =~= parts.push(segment));
    assert(plan.parts().drop_last() =~= parts);
    Ok(())
}

/// A segment ends at or after the page it starts in.
pub proof fn lemma_pages_ordered(segment: SegmentPlan)
    requires
        segment.virtual_address + segment.memory_size <= u64::MAX,
    ensures
        0 <= segment.first_page() <= segment.pages_end() <= u64::MAX - 4095,
        segment.first_page() % 4096 == 0,
        segment.pages_end() % 4096 == 0,
        segment.page_count() >= 0,
        segment.pages_end() == segment.first_page() + 4096 * segment.page_count(),
{
}

/// Page counts are never negative.
pub proof fn lemma_total_pages_nonnegative(parts: Seq<SegmentPlan>)
    requires
        forall|i: int|
            0 <= i < parts.len() ==> (#[trigger] parts[i]).virtual_address + parts[i].memory_size
                <= u64::MAX,
    ensures
        total_pages(parts) >= 0,
    decreases parts.len(),
{
    if parts.len() > 0 {
        lemma_pages_ordered(parts.last());
        lemma_total_pages_nonnegative(parts.drop_last());
    }
}

/// Checks an image and plans where its segments go.
pub fn validate_image(image: &[u8], layout: &paging::UserLayout) -> (r: Result<
    ImagePlan,
    LoadError,
>)
    ensures
        match load_plan(image@, *layout) {
            Ok(parts) => {
                &&& r is Ok
                &&& r->Ok_0.parts() == parts
                &&& r->Ok_0.entry_point == entry_of(image@)
                &&& r->Ok_0.consistent()
            },
            Err(error) => r is Err && r->Err_0 == error,
        },
{
    match check_header(image) {
        Err(error) => {
            return Err(error);
        },
        Ok(_) => {},
    }
    let length: usize = image.len();
    let entry_point: u64 = read_u64(image, 24)?;
    let table_start: usize = read_u64(image, 32)? as usize;
    let program_header_count: usize = read_u16(image, 56)? as usize;

    let mut plan = ImagePlan {
        entry_point,
        image_start: u64::MAX,
        image_end: 0,
        total_pages: 0,
        segment_count: 0,
        segments: [SegmentPlan::empty(); MAX_LOAD_SEGMENTS],
    };
    let mut entry_is_executable: bool = false;
    let mut index: usize = 0;
    assert(plan.parts() =~= Seq::<SegmentPlan>::empty());
    while index < program_header_count
        invariant
            header_error(image@) is None,
            length == image@.len(),
            index <= program_header_count,
            program_header_count == header_count(image@),
            table_start == bytes::le_at(image@, 32, 8),
            entry_point == entry_of(image@),
            plan.entry_point == entry_point,
            plan.consistent(),
            total_pages(plan.parts()) <= 64,
            scan_headers(image@, *layout, index as nat) == Ok::<Seq<SegmentPlan>, LoadError>(
                plan.parts(),
            ),
            forall|i: int|
                0 <= i < plan.parts().len() ==> (#[trigger] plan.parts()[i]).virtual_address
                    + plan.parts()[i].memory_size <= u64::MAX,
            entry_is_executable == entry_covered(entry_point, plan.parts()),
        decreases program_header_count - index,
    {
        let ghost before = plan.parts();
        let ghost header = header_at(image@, index as int);
        proof {
            assert(scan_headers(image@, *layout, (index + 1) as nat) == add_header(
                before,
                header,
                image@.len(),
                *layout,
            ));
            lemma_scan_error(image@, *layout, (index + 1) as nat, header_count(image@));
        }
        let offset: usize = table_start + index * PROGRAM_HEADER_SIZE;
        index = index + 1;
        if read_u32(image, offset)? != PT_LOAD {
            continue;
        }
        let flags: u32 = read_u32(image, offset + 4)?;
        let file_offset: u64 = read_u64(image, offset + 8)?;
        let virtual_address: u64 = read_u64(image, offset + 16)?;
        let file_size: u64 = read_u64(image, offset + 32)?;
        let memory_size: u64 = read_u64(image, offset + 40)?;
        let alignment: u64 = read_u64(image, offset + 48)?;

        if file_size > memory_size {
            return Err(LoadError::SegmentFileLargerThanMemory);
        }
        if memory_size == 0 {
            continue;
        }
        match file_offset.checked_add(file_size) {
            None => {
                return Err(LoadError::SegmentOutsideImage);
            },
            Some(file_end) => if file_end > length as u64 {
                return Err(LoadError::SegmentOutsideImage);
            },
        }
        let memory_end: u64 = match virtual_address.checked_add(memory_size) {
            None => {
                return Err(LoadError::SegmentAddressOverflow);
            },
            Some(memory_end) => memory_end,
        };
        if virtual_address < layout.base || memory_end > layout.end {
            return Err(LoadError::SegmentOutsideUserRegion);
        }
        if alignment > 1 && (!bits::is_power_of_two(alignment) || virtual_address % alignment
            != file_offset % alignment) {
            return Err(LoadError::SegmentAlignmentInvalid);
        }
        assert((flags & 4 == 0) == ((flags / 4) % 2 == 0)) by (bit_vector);
        assert((flags & 2 == 0) == ((flags / 2) % 2 == 0)) by (bit_vector);
        assert((flags & 1 == 0) == (flags % 2 == 0)) by (bit_vector);
        if flags & PF_READ == 0 {
            return Err(LoadError::SegmentMissingReadPermission);
        }
        let writable: bool = flags & PF_WRITE != 0;
        let executable: bool = flags & PF_EXECUTE != 0;
        if writable && executable {
            return Err(LoadError::WritableExecutableSegment);
        }
        let segment = SegmentPlan {
            file_offset,
            virtual_address,
            file_size,
            memory_size,
            writable,
            executable,
        };
        assert(segment == header.segment());
        match add_segment(&mut plan, segment) {
            Err(error) => {
                return Err(error);
            },
            Ok(_) => {},
        }
        proof {
            lemma_entry_covered_push(entry_point, before, segment);
        }
        if executable && entry_point >= virtual_address && entry_point < memory_end {
            entry_is_executable = true;
        }
    }
    if plan.segment_count == 0 {
        return Err(LoadError::NoLoadSegments);
    }
    if !entry_is_executable {
        return Err(LoadError::EntryOutsideExecutableSegment);
    }
    Ok(plan)
}

/// The first error among the program headers is the error of them all.
proof fn lemma_scan_error(image: Seq<u8>, layout: paging::UserLayout, some: nat, all: nat)
    requires
        some <= all,
    ensures
        scan_headers(image, layout, some) is Err ==> scan_headers(image, layout, all)
            == scan_headers(image, layout, some),
    decreases all,
{
    if some < all {
        lemma_scan_error(image, layout, some, (all - 1) as nat);
    }
}

proof fn lemma_entry_covered_push(entry: u64, parts: Seq<SegmentPlan>, segment: SegmentPlan)
    ensures
        entry_covered(entry, parts.push(segment)) == (entry_covered(entry, parts) || (
        segment.executable && segment.covers(entry))),
{
    let more = parts.push(segment);
    if entry_covered(entry, parts) {
        let i = choose|i: int|
            0 <= i < parts.len() && #[trigger] parts[i].executable && parts[i].covers(entry);
        assert(more[i].executable && more[i].covers(entry));
    }
    if segment.executable && segment.covers(entry) {
        assert(more[parts.len() as int].executable && more[parts.len() as int].covers(entry));
    }
    if entry_covered(entry, more) {
        let i = choose|i: int|
            0 <= i < more.len() && #[trigger] more[i].executable && more[i].covers(entry);
        if i < parts.len() {
            assert(parts[i].executable && parts[i].covers(entry));
        }
    }
}

pub open spec fn error_text(error: LoadError) -> Seq<char> {
    match error {
        LoadError::AlreadyLoaded => "ELF image is already loaded"@,
        LoadError::InitProgramMissing => "/bin/init is missing from initramfs"@,
        LoadError::ImageTooSmall => "ELF image is smaller than its header"@,
        LoadError::BadMagic => "ELF magic is invalid"@,
        LoadError::UnsupportedClass => "ELF class is not 64-bit"@,
        LoadError::UnsupportedEndianness => "ELF byte order is not little-endian"@,
        LoadError::UnsupportedIdentVersion => "ELF identification version is unsupported"@,
        LoadError::UnsupportedType => "ELF type is not executable"@,
        LoadError::UnsupportedMachine => "ELF machine is not x86_64"@,
        LoadError::UnsupportedVersion => "ELF version is unsupported"@,
        LoadError::InvalidHeaderSize => "ELF header size is invalid"@,
        LoadError::InvalidProgramHeaderSize => "ELF program header size is invalid"@,
        LoadError::InvalidProgramHeaderCount => "ELF program header count is invalid"@,
        LoadError::ProgramHeaderTableOutsideImage => "ELF program header table is truncated"@,
        LoadError::NoLoadSegments => "ELF has no PT_LOAD segments"@,
        LoadError::TooManyLoadSegments => "ELF has too many PT_LOAD segments"@,
        LoadError::SegmentFileLargerThanMemory => "ELF segment file size exceeds memory size"@,
        LoadError::SegmentOutsideImage => "ELF segment data is truncated"@,
        LoadError::SegmentAddressOverflow => "ELF segment address overflows"@,
        LoadError::SegmentOutsideUserRegion => "ELF segment is outside the user load region"@,
        LoadError::SegmentAlignmentInvalid => "ELF segment alignment is invalid"@,
        LoadError::SegmentMissingReadPermission => "ELF PT_LOAD segment is not readable"@,
        LoadError::WritableExecutableSegment => "ELF segment violates W^X"@,
        LoadError::SegmentPageOverlap => "ELF PT_LOAD pages overlap"@,
        LoadError::TooManyLoadPages => "ELF image exceeds loader page capacity"@,
        LoadError::EntryOutsideExecutableSegment => "ELF entry is outside executable memory"@,
        LoadError::TargetPageAlreadyMapped => "ELF target page is already mapped"@,
        LoadError::MappingLost => "ELF mapping disappeared during load"@,
        LoadError::PageMappingFailed(cause) => cause.name@,
        LoadError::StackMappingFailed(cause) => cause.name@,
        LoadError::AddressSpaceFailed(cause) => cause.name@,
    }
}

/// A sentence for each error.
pub fn load_error_name(error: LoadError) -> (r: &'static str)
    ensures
        r@ == error_text(error),
{
    match error {
        LoadError::AlreadyLoaded => "ELF image is already loaded",
        LoadError::InitProgramMissing => "/bin/init is missing from initramfs",
        LoadError::ImageTooSmall => "ELF image is smaller than its header",
        LoadError::BadMagic => "ELF magic is invalid",
        LoadError::UnsupportedClass => "ELF class is not 64-bit",
        LoadError::UnsupportedEndianness => "ELF byte order is not little-endian",
        LoadError::UnsupportedIdentVersion => "ELF identification version is unsupported",
        LoadError::UnsupportedType => "ELF type is not executable",
        LoadError::UnsupportedMachine => "ELF machine is not x86_64",
        LoadError::UnsupportedVersion => "ELF version is unsupported",
        LoadError::InvalidHeaderSize => "ELF header size is invalid",
        LoadError::InvalidProgramHeaderSize => "ELF program header size is invalid",
        LoadError::InvalidProgramHeaderCount => "ELF program header count is invalid",
        LoadError::ProgramHeaderTableOutsideImage => "ELF program header table is truncated",
        LoadError::NoLoadSegments => "ELF has no PT_LOAD segments",
        LoadError::TooManyLoadSegments => "ELF has too many PT_LOAD segments",
        LoadError::SegmentFileLargerThanMemory => "ELF segment file size exceeds memory size",
        LoadError::SegmentOutsideImage => "ELF segment data is truncated",
        LoadError::SegmentAddressOverflow => "ELF segment address overflows",
        LoadError::SegmentOutsideUserRegion => "ELF segment is outside the user load region",
        LoadError::SegmentAlignmentInvalid => "ELF segment alignment is invalid",
        LoadError::SegmentMissingReadPermission => "ELF PT_LOAD segment is not readable",
        LoadError::WritableExecutableSegment => "ELF segment violates W^X",
        LoadError::SegmentPageOverlap => "ELF PT_LOAD pages overlap",
        LoadError::TooManyLoadPages => "ELF image exceeds loader page capacity",
        LoadError::EntryOutsideExecutableSegment => "ELF entry is outside executable memory",
        LoadError::TargetPageAlreadyMapped => "ELF target page is already mapped",
        LoadError::MappingLost => "ELF mapping disappeared during load",
        LoadError::PageMappingFailed(cause) => paging::map_error_name(cause),
        LoadError::StackMappingFailed(cause) => paging::map_error_name(cause),
        LoadError::AddressSpaceFailed(cause) => paging::address_space_error_name(cause),
    }
}

#[derive(Clone, Copy)]
pub struct Snapshot {
    pub initialized: bool,
    pub loaded: bool,
    pub entry_point: u64,
    pub image_start: u64,
    pub image_end: u64,
    pub stack_top: u64,
    pub load_segments: u64,
    pub mapped_pages: u64,
    pub writable_pages: u64,
    pub executable_pages: u64,
    pub last_error: Option<LoadError>,
}

/// Whether the first user program was loaded, and what came of it.
pub struct LoaderState {
    pub initialized: bool,
    pub loaded: Option<LoadedImage>,
    pub last_error: Option<LoadError>,
}

impl LoaderState {
    pub fn new() -> (r: Self)
        ensures
            r == (LoaderState { initialized: false, loaded: None, last_error: None }),
    {
        LoaderState { initialized: false, loaded: None, last_error: None }
    }

    /// What the state reports of itself: zeros where nothing was loaded.
    pub open spec fn report(self) -> Snapshot {
        let image = match self.loaded {
            Some(image) => image,
            None => LoadedImage {
                entry_point: 0,
                image_start: 0,
                image_end: 0,
                stack_top: 0,
                load_segments: 0,
                mapped_pages: 0,
                writable_pages: 0,
                executable_pages: 0,
            },
        };
        Snapshot {
            initialized: self.initialized,
            loaded: self.loaded is Some,
            entry_point: image.entry_point,
            image_start: image.image_start,
            image_end: image.image_end,
            stack_top: image.stack_top,
            load_segments: image.load_segments,
            mapped_pages: image.mapped_pages,
            writable_pages: image.writable_pages,
            executable_pages: image.executable_pages,
            last_error: self.last_error,
        }
    }

    /// The state after a load that ended with `outcome`.
    pub open spec fn after(self, outcome: Result<LoadedImage, LoadError>) -> LoaderState {
        match outcome {
            Ok(image) => LoaderState { loaded: Some(image), last_error: None, ..self },
            Err(error) => LoaderState { last_error: Some(error), ..self },
        }
    }
}

/// Where the start of the loader stands: it is over, or a load is to be run, after which
/// `finish_init` is owed.
pub enum InitStep {
    Done(Result<LoadedImage, LoadError>),
    Load(LoadMachine),
}

/// Starts loading the program `/bin/init` of the archive, unless that was done before.
pub fn init(
    state: &mut LoaderState,
    files: &ArchiveState,
    archive: &[u8],
    layout: &paging::UserLayout,
) -> (r: InitStep)
    ensures
        old(state).initialized ==> *final(state) == *old(state) && r == InitStep::Done(
            match old(state).loaded {
                Some(image) => Ok(image),
                None => Err(LoadError::AlreadyLoaded),
            },
        ),
        !old(state).initialized ==> {
            let begun = LoaderState { initialized: true, ..*old(state) };
            match initramfs::requested(
                files.report(),
                archive@,
                vstd::utf8::encode_utf8("/bin/init"@),
            ) {
                None => {
                    &&& *final(state) == begun.after(Err(LoadError::InitProgramMissing))
                    &&& r == InitStep::Done(Err(LoadError::InitProgramMissing))
                },
                Some(file) => match load_plan(file.data, *layout) {
                    Err(error) => {
                        &&& *final(state) == begun.after(Err(error))
                        &&& r == InitStep::Done(Err(error))
                    },
                    Ok(parts) => {
                        &&& *final(state) == begun
                        &&& r is Load
                        &&& r->Load_0.wf()
                        &&& r->Load_0.parts() == parts
                        &&& r->Load_0.entry_point() == entry_of(file.data)
                        &&& r->Load_0.layout() == *layout
                        &&& r->Load_0.pages() == elf_load::requests(parts, *layout)
                        &&& r->Load_0.phase() == LoadPhase::Probing(0)
                    },
                },
            }
        },
{
    if state.initialized {
        return match state.loaded {
            Some(image) => InitStep::Done(Ok(image)),
            None => InitStep::Done(Err(LoadError::AlreadyLoaded)),
        };
    }
    state.initialized = true;
    match initramfs::find(files, archive, "/bin/init") {
        None => {
            state.last_error = Some(LoadError::InitProgramMissing);
            InitStep::Done(Err(LoadError::InitProgramMissing))
        },
        Some(file) => match elf_load::load_image(file.data, layout) {
            Err(error) => {
                state.last_error = Some(error);
                InitStep::Done(Err(error))
            },
            Ok(machine) => InitStep::Load(machine),
        },
    }
}

/// Takes down how the load ended, and reports.
pub fn finish_init(state: &mut LoaderState, outcome: Result<LoadedImage, LoadError>) -> (r:
    Snapshot)
    ensures
        *final(state) == old(state).after(outcome),
        r == final(state).report(),
{
    match outcome {
        Ok(image) => {
            state.loaded = Some(image);
            state.last_error = None;
        },
        Err(error) => {
            state.last_error = Some(error);
        },
    }
    snapshot(state)
}

/// What the loader reports of itself.
pub fn snapshot(state: &LoaderState) -> (r: Snapshot)
    ensures
        r == state.report(),
{
    let image: LoadedImage = match state.loaded {
        Some(image) => image,
        None => LoadedImage {
            entry_point: 0,
            image_start: 0,
            image_end: 0,
            stack_top: 0,
            load_segments: 0,
            mapped_pages: 0,
            writable_pages: 0,
            executable_pages: 0,
        },
    };
    Snapshot {
        initialized: state.initialized,
        loaded: state.loaded.is_some(),
        entry_point: image.entry_point,
        image_start: image.image_start,
        image_end: image.image_end,
        stack_top: image.stack_top,
        load_segments: image.load_segments,
        mapped_pages: image.mapped_pages,
        writable_pages: image.writable_pages,
        executable_pages: image.executable_pages,
        last_error: state.last_error,
    }
}

/// The image that was loaded, if one was.
pub fn loaded_image(state: &LoaderState) -> (r: Option<LoadedImage>)
    ensures
        r == state.loaded,
{
    state.loaded
}

/// The addresses that the loader's test looks at.
#[derive(Clone, Copy, PartialEq, Eq, Structural)]
pub struct ProbeAddresses {
    pub text: u64,
    pub data: u64,
    pub stack: u64,
    pub guard: u64,
    pub text_bytes: u64,
    pub data_bytes: u64,
    pub bss_byte: u64,
}

/// Where to look when the loader is tested.
pub fn probe_addresses(state: &LoaderState, layout: &paging::UserLayout) -> (r: ProbeAddresses)
    ensures
        r == (ProbeAddresses {
            text: state.report().entry_point,
            data: (paging::USER_ELF_BASE + 4096) as u64,
            stack: layout.stack_page,
            guard: layout.stack_guard,
            text_bytes: paging::USER_ELF_BASE,
            data_bytes: (paging::USER_ELF_BASE + 4096) as u64,
            bss_byte: (paging::USER_ELF_BASE + 4096 + 128) as u64,
        }),
{
    let report: Snapshot = snapshot(state);
    let data: u64 = paging::USER_ELF_BASE + paging::PAGE_SIZE_4K;
    ProbeAddresses {
        text: report.entry_point,
        data,
        stack: layout.stack_page,
        guard: layout.stack_guard,
        text_bytes: paging::USER_ELF_BASE,
        data_bytes: data,
        bss_byte: data + user_program::INIT_BSS_PROBE_OFFSET,
    }
}

/// What was found at the addresses of the loader's test. A byte that is not mapped is `None`.
pub struct Probes {
    pub text: Translation,
    pub data: Translation,
    pub stack: Translation,
    pub guard_mapped: bool,
    pub text_bytes: Vec<Option<u8>>,
    pub data_bytes: Vec<Option<u8>>,
    pub bss_byte: Option<u8>,
}

/// The bytes found start with those expected.
pub open spec fn found_bytes(found: Seq<Option<u8>>, expected: Seq<u8>) -> bool {
    &&& expected.len() <= found.len()
    &&& forall|i: int| 0 <= i < expected.len() ==> #[trigger] found[i] == Some(expected[i])
}

/// Whether the bytes found start with those expected.
pub fn mapped_bytes_equal(found: &[Option<u8>], expected: &[u8]) -> (r: bool)
    ensures
        r == found_bytes(found@, expected@),
{
    if found.len() < expected.len() {
        return false;
    }
    let mut index: usize = 0;
    while index < expected.len()
        invariant
            index <= expected@.len(),
            expected@.len() <= found@.len(),
            forall|i: int| 0 <= i < index ==> #[trigger] found@[i] == Some(expected@[i]),
        decreases expected@.len() - index,
    {
        let same: bool = match found[index] {
            Some(byte) => byte == expected[index],
            None => false,
        };
        if !same {
            assert(found@[index as int] != Some(expected@[index as int]));
            return false;
        }
        index = index + 1;
    }
    true
}

impl Probes {
    /// The pages have the rights that the first user program asks for, and hold what it holds.
    pub open spec fn sound(&self) -> bool {
        &&& self.text.mapped && self.text.user_accessible && !self.text.writable
            && self.text.executable
        &&& self.data.mapped && self.data.user_accessible && self.data.writable
            && !self.data.executable
        &&& self.stack.mapped && self.stack.user_accessible && self.stack.writable
            && !self.stack.executable
        &&& !self.guard_mapped
        &&& found_bytes(self.text_bytes@, user_program::INIT_TEXT_SIGNATURE@)
        &&& found_bytes(self.data_bytes@, user_program::INIT_DATA_SIGNATURE@)
        &&& self.bss_byte == Some(0u8)
    }

    fn check(&self) -> (r: bool)
        ensures
            r == self.sound(),
    {
        let text_ok: bool = self.text.mapped && self.text.user_accessible && !self.text.writable
            && self.text.executable;
        let data_ok: bool = self.data.mapped && self.data.user_accessible && self.data.writable
            && !self.data.executable;
        let stack_ok: bool = self.stack.mapped && self.stack.user_accessible
            && self.stack.writable && !self.stack.executable;
        let blank: bool = match self.bss_byte {
            Some(byte) => byte == 0,
            None => false,
        };
        text_ok && data_ok && stack_ok && !self.guard_mapped && mapped_bytes_equal(
            &self.text_bytes,
            &user_program::INIT_TEXT_SIGNATURE,
        ) && mapped_bytes_equal(&self.data_bytes, &user_program::INIT_DATA_SIGNATURE) && blank
    }
}

/// The report of a loader that holds the first user program.
pub open spec fn expected_report(report: Snapshot) -> bool {
    &&& report.initialized
    &&& report.loaded
    &&& report.last_error is None
    &&& report.load_segments == 2
    &&& report.mapped_pages == 3
    &&& report.writable_pages == 2
    &&& report.executable_pages == 1
}

/// Tests the loader: its report, what it put into memory, the archive it took the program from,
/// and that it refuses what is no program.
pub fn selftest(
    state: &LoaderState,
    probes: &Probes,
    files: &ArchiveState,
    archive: &[u8],
    layout: &paging::UserLayout,
) -> (r: bool)
    ensures
        r == {
            &&& expected_report(state.report())
            &&& probes.sound()
            &&& initramfs::healthy(files.report(), archive@)
            &&& match initramfs::requested(
                files.report(),
                archive@,
                vstd::utf8::encode_utf8("/bin/init"@),
            ) {
                Some(file) => load_plan(file.data, *layout) is Ok,
                None => false,
            }
        },
{
    let report: Snapshot = snapshot(state);
    let reported: bool = report.initialized && report.loaded && report.last_error.is_none()
        && report.load_segments == 2 && report.mapped_pages == 3 && report.writable_pages == 2
        && report.executable_pages == 1;
    let valid: bool = match initramfs::find(files, archive, "/bin/init") {
        Some(file) => validate_image(file.data, layout).is_ok(),
        None => false,
    };
    let blank: [u8; ELF_HEADER_SIZE] = [0; ELF_HEADER_SIZE];
    let short: [u8; 32] = [0; 32];
    assert(blank@.take(4)[0] == 0);
    let magic_refused: bool = match validate_image(&blank, layout) {
        Err(LoadError::BadMagic) => true,
        _ => false,
    };
    let size_refused: bool = match validate_image(&short, layout) {
        Err(LoadError::ImageTooSmall) => true,
        _ => false,
    };
    reported && probes.check() && initramfs::selftest(files, archive) && valid && magic_refused
        && size_refused
}

} // verus!
