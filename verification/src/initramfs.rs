//! The initial file system: a CPIO archive in the "newc" format.
use crate::{bits, text};
use vstd::prelude::*;

verus! {

pub const CPIO_HEADER_SIZE: usize = 110;

pub const MAX_ARCHIVE_SIZE: u64 = 0x200_0000;

pub const MAX_ENTRIES: usize = 32;

pub const MAX_PATH_LEN: usize = 96;

const MODE_TYPE_MASK: u32 = 0xf000;

const MODE_REGULAR: u32 = 0x8000;

const MODE_DIRECTORY: u32 = 0x4000;

#[derive(Clone, Copy, PartialEq, Eq, Structural)]
pub enum ArchiveError {
    MissingModule,
    InvalidModule,
    ArchiveTooLarge,
    TruncatedHeader,
    InvalidMagic,
    InvalidHexField,
    InvalidNameSize,
    NameTooLong,
    NameMissingTerminator,
    InvalidPath,
    EntryOutsideArchive,
    ChecksumUnsupported,
    MissingTrailer,
    InvalidTrailer,
    TrailingGarbage,
    TooManyEntries,
    MissingInit,
    InitNotRegular,
}

/// `070701`, which starts every entry.
pub open spec fn cpio_magic() -> Seq<u8> {
    seq![0x30u8, 0x37u8, 0x30u8, 0x37u8, 0x30u8, 0x31u8]
}

/// `TRAILER!!!`, the name of the entry that ends an archive.
pub open spec fn cpio_trailer() -> Seq<u8> {
    seq![
        0x54u8,
        0x52u8,
        0x41u8,
        0x49u8,
        0x4cu8,
        0x45u8,
        0x52u8,
        0x21u8,
        0x21u8,
        0x21u8,
    ]
}

/// `bin/init`, the program that the kernel starts.
pub open spec fn init_path() -> Seq<u8> {
    seq![0x62u8, 0x69u8, 0x6eu8, 0x2fu8, 0x69u8, 0x6eu8, 0x69u8, 0x74u8]
}

/// The value of a hexadecimal digit.
pub open spec fn hex_digit(byte: u8) -> Option<nat> {
    if 0x30 <= byte <= 0x39 {
        Some((byte - 0x30) as nat)
    } else if 0x61 <= byte <= 0x66 {
        Some((byte - 0x61 + 10) as nat)
    } else if 0x41 <= byte <= 0x46 {
        Some((byte - 0x41 + 10) as nat)
    } else {
        None
    }
}

/// All bytes are hexadecimal digits.
pub open spec fn all_hex(bytes: Seq<u8>) -> bool {
    forall|i: int| 0 <= i < bytes.len() ==> hex_digit(#[trigger] bytes[i]) is Some
}

/// The number that hexadecimal digits stand for, most significant first.
pub open spec fn hex_number(digits: Seq<u8>) -> nat
    decreases digits.len(),
{
    if digits.len() == 0 {
        0
    } else {
        16 * hex_number(digits.drop_last()) + hex_digit(digits.last())->0
    }
}

/// `16` to the power `width`.
pub open spec fn hex_range(width: nat) -> nat
    decreases width,
{
    if width == 0 {
        1
    } else {
        16 * hex_range((width - 1) as nat)
    }
}

/// A number of `n` hexadecimal digits is below `16` to the power `n`.
pub proof fn lemma_hex_bound(digits: Seq<u8>)
    requires
        all_hex(digits),
    ensures
        hex_number(digits) < hex_range(digits.len()),
    decreases digits.len(),
{
    if digits.len() > 0 {
        assert forall|i: int| 0 <= i < digits.len() - 1 implies hex_digit(
            #[trigger] digits.drop_last()[i],
        ) is Some by {
            assert(hex_digit(digits[i]) is Some);
        }
        lemma_hex_bound(digits.drop_last());
        assert(hex_digit(digits[digits.len() - 1]) is Some);
    }
}

/// Eight hexadecimal digits fill a 32-bit number.
pub proof fn lemma_hex_ranges()
    ensures
        hex_range(7) == 0x1000_0000,
        hex_range(8) == 0x1_0000_0000,
{
    reveal_with_fuel(hex_range, 9);
}

/// The byte is a letter, a digit, a dot, an underscore or a hyphen.
pub open spec fn plain_byte(byte: u8) -> bool {
    ||| 0x30 <= byte <= 0x39
    ||| 0x41 <= byte <= 0x5a
    ||| 0x61 <= byte <= 0x7a
    ||| byte == 0x2e
    ||| byte == 0x5f
    ||| byte == 0x2d
}

/// `from..to` is what stands between two neighbouring slashes of `path`, where the ends of the
/// path count as slashes.
pub open spec fn is_component(path: Seq<u8>, from: int, to: int) -> bool {
    &&& 0 <= from <= to <= path.len()
    &&& from == 0 || path[from - 1] == 0x2f
    &&& to == path.len() || path[to] == 0x2f
    &&& forall|i: int| from <= i < to ==> #[trigger] path[i] != 0x2f
}

/// The component is not empty, nor `.`, nor `..`.
pub open spec fn component_ok(path: Seq<u8>, from: int, to: int) -> bool {
    &&& from < to
    &&& !(to == from + 1 && path[from] == 0x2e)
    &&& !(to == from + 2 && path[from] == 0x2e && path[from + 1] == 0x2e)
}

/// A relative path of plain names: nothing empty, no `.` and no `..` between the slashes.
pub open spec fn path_ok(path: Seq<u8>) -> bool {
    &&& forall|i: int|
        0 <= i < path.len() ==> #[trigger] path[i] == 0x2f || plain_byte(path[i])
    &&& forall|from: int, to: int|
        #[trigger] is_component(path, from, to) ==> component_ok(path, from, to)
}

/// One entry of an archive.
pub struct ArchiveEntry {
    pub name: Seq<u8>,
    pub data: Seq<u8>,
    pub mode: u32,
    pub next_offset: int,
    pub trailer: bool,
}

/// A regular file, going by the mode.
pub open spec fn is_regular(mode: u32) -> bool {
    (mode / 4096) % 16 == 8
}

/// A directory, going by the mode.
pub open spec fn is_directory(mode: u32) -> bool {
    (mode / 4096) % 16 == 4
}

/// Field `index` of the header that starts at `offset`.
pub open spec fn header_field(archive: Seq<u8>, offset: int, index: int) -> Seq<u8> {
    archive.subrange(offset + 6 + 8 * index, offset + 14 + 8 * index)
}

/// The next multiple of four from `position` on: where what follows starts.
pub open spec fn padded(position: int) -> int {
    bits::ceil_to(position, 4)
}

/// The entry that starts at `offset`, or the first thing that is wrong with it.
pub open spec fn entry_at(archive: Seq<u8>, offset: int) -> Result<ArchiveEntry, ArchiveError> {
    let header_end = offset + 110;
    let mode = hex_number(header_field(archive, offset, 1));
    let file_size = hex_number(header_field(archive, offset, 6));
    let name_size = hex_number(header_field(archive, offset, 11));
    let checksum = hex_number(header_field(archive, offset, 12));
    let name_end = header_end + name_size;
    let name = archive.subrange(header_end, name_end - 1);
    let data_start = padded(name_end);
    let data_end = data_start + file_size;
    let data = archive.subrange(data_start, data_end);
    let next_offset = padded(data_end);
    let trailer = name == cpio_trailer();
    if header_end > usize::MAX {
        Err(ArchiveError::EntryOutsideArchive)
    } else if header_end > archive.len() {
        Err(ArchiveError::TruncatedHeader)
    } else if archive.subrange(offset, offset + 6) != cpio_magic() {
        Err(ArchiveError::InvalidMagic)
    } else if !all_hex(archive.subrange(offset + 6, header_end)) {
        Err(ArchiveError::InvalidHexField)
    } else if checksum != 0 {
        Err(ArchiveError::ChecksumUnsupported)
    } else if name_size == 0 {
        Err(ArchiveError::InvalidNameSize)
    } else if name_size > 97 {
        Err(ArchiveError::NameTooLong)
    } else if name_end > archive.len() {
        Err(ArchiveError::EntryOutsideArchive)
    } else if archive[name_end - 1] != 0 {
        Err(ArchiveError::NameMissingTerminator)
    } else if name_end + 3 > usize::MAX || data_end > archive.len() || data_end + 3 > usize::MAX
        || next_offset > archive.len() {
        Err(ArchiveError::EntryOutsideArchive)
    } else if trailer && data.len() > 0 {
        Err(ArchiveError::InvalidTrailer)
    } else if !trailer && !path_ok(name) {
        Err(ArchiveError::InvalidPath)
    } else {
        Ok(ArchiveEntry { name, data, mode: mode as u32, next_offset, trailer })
    }
}

/// An entry takes at least its header.
pub proof fn lemma_entry_advances(archive: Seq<u8>, offset: int)
    requires
        0 <= offset,
        entry_at(archive, offset) is Ok,
    ensures
        offset + 110 < entry_at(archive, offset)->Ok_0.next_offset <= archive.len(),
        entry_at(archive, offset)->Ok_0.name.len() <= 96,
        !entry_at(archive, offset)->Ok_0.trailer ==> path_ok(
            entry_at(archive, offset)->Ok_0.name,
        ),
{
    let name_size = hex_number(header_field(archive, offset, 11));
    let file_size = hex_number(header_field(archive, offset, 6));
    bits::lemma_ceil_to(offset + 110 + name_size, 4);
    bits::lemma_ceil_to(padded(offset + 110 + name_size) + file_size, 4);
}

/// The value of eight hexadecimal digits.
pub fn parse_hex_u32(bytes: &[u8]) -> (r: Result<u32, ArchiveError>)
    ensures
        if bytes@.len() == 8 && all_hex(bytes@) {
            r is Ok && r->Ok_0 == hex_number(bytes@)
        } else {
            r == Err::<u32, ArchiveError>(ArchiveError::InvalidHexField)
        },
{
    if bytes.len() != 8 {
        return Err(ArchiveError::InvalidHexField);
    }
    let mut value: u32 = 0;
    let mut index: usize = 0;
    while index < 8
        invariant
            index <= 8,
            bytes@.len() == 8,
            all_hex(bytes@.take(index as int)),
            value == hex_number(bytes@.take(index as int)),
        decreases 8 - index,
    {
        let byte: u8 = bytes[index];
        let ghost done = bytes@.take(index as int);
        let ghost more = bytes@.take(index + 1);
        assert(more.drop_last() =~= done);
        assert(more.last() == byte);
        proof {
            lemma_hex_bound(done);
            lemma_hex_ranges();
            assert(hex_range(index as nat) <= 0x1000_0000) by {
                reveal_with_fuel(hex_range, 9);
            }
        }
        let digit: u32 = if 0x30 <= byte && byte <= 0x39 {
            (byte - 0x30) as u32
        } else if 0x61 <= byte && byte <= 0x66 {
            (byte - 0x61 + 10) as u32
        } else if 0x41 <= byte && byte <= 0x46 {
            (byte - 0x41 + 10) as u32
        } else {
            assert(hex_digit(bytes@[index as int]) is None);
            return Err(ArchiveError::InvalidHexField);
        };
        assert forall|i: int| 0 <= i < more.len() implies hex_digit(#[trigger] more[i]) is Some by {
            if i < index {
                assert(hex_digit(done[i]) is Some);
            }
        }
        value = value * 16 + digit;
        index = index + 1;
    }
    assert(bytes@.take(8) =~= bytes@);
    Ok(value)
}

/// Whether `path` is a relative path of plain names.
pub fn valid_path(path: &[u8]) -> (r: bool)
    ensures
        r == path_ok(path@),
{
    let length: usize = path.len();
    let mut component_start: usize = 0;
    let mut index: usize = 0;
    loop
        invariant
            length == path@.len(),
            component_start <= index <= length,
            component_start == 0 || path@[component_start - 1] == 0x2f,
            forall|i: int| component_start <= i < index ==> #[trigger] path@[i] != 0x2f,
            forall|i: int|
                0 <= i < index ==> #[trigger] path@[i] == 0x2f || plain_byte(path@[i]),
            forall|from: int, to: int|
                #[trigger] is_component(path@, from, to) && to < index ==> component_ok(
                    path@,
                    from,
                    to,
                ),
        decreases length - index,
    {
        if index == length || path[index] == 0x2f {
            let size: usize = index - component_start;
            let ghost start = component_start as int;
            assert(is_component(path@, start, index as int));
            if size == 0 || (size == 1 && path[component_start] == 0x2e) || (size == 2
                && path[component_start] == 0x2e && path[component_start + 1] == 0x2e) {
                return false;
            }
            assert forall|from: int, to: int| #[trigger] is_component(path@, from, to) && to
                <= index implies component_ok(path@, from, to) by {
                if to == index {
                    if from < start {
                        assert(path@[start - 1] != 0x2f);
                    } else if from > start {
                        assert(path@[from - 1] != 0x2f);
                    }
                }
            }
            if index == length {
                assert forall|from: int, to: int| #[trigger] is_component(
                    path@,
                    from,
                    to,
                ) implies component_ok(path@, from, to) by {}
                return true;
            }
            component_start = index + 1;
        } else {
            let byte: u8 = path[index];
            if !((0x30 <= byte && byte <= 0x39) || (0x41 <= byte && byte <= 0x5a) || (0x61 <= byte
                && byte <= 0x7a) || byte == 0x2e || byte == 0x5f || byte == 0x2d) {
                assert(!(path@[index as int] == 0x2f || plain_byte(path@[index as int])));
                return false;
            }
        }
        index = index + 1;
    }
}

/// The path without a leading slash, where what is left is a relative path of plain names.
pub fn normalize_requested_path(path: &[u8]) -> (r: Option<&[u8]>)
    ensures
        match normalized(path@) {
            Some(name) => r is Some && r->0@ == name,
            None => r is None,
        },
{
    let name: &[u8] = if path.len() > 0 && path[0] == 0x2f {
        &path[1..path.len()]
    } else {
        path
    };
    if valid_path(name) {
        Some(name)
    } else {
        None
    }
}

/// What `normalize_requested_path` makes of `path`.
pub open spec fn normalized(path: Seq<u8>) -> Option<Seq<u8>> {
    let name = if path.len() > 0 && path[0] == 0x2f {
        path.subrange(1, path.len() as int)
    } else {
        path
    };
    if path_ok(name) {
        Some(name)
    } else {
        None
    }
}

/// One entry of an archive, with its name and data still in place.
pub struct ParsedEntry<'a> {
    pub name: &'a [u8],
    pub data: &'a [u8],
    pub mode: u32,
    pub next_offset: usize,
    pub trailer: bool,
}

impl ParsedEntry<'_> {
    pub open spec fn model(&self) -> ArchiveEntry {
        ArchiveEntry {
            name: self.name@,
            data: self.data@,
            mode: self.mode,
            next_offset: self.next_offset as int,
            trailer: self.trailer,
        }
    }
}

/// Rounds up to a multiple of four, where the way there does not overflow.
fn align_up_four(value: usize) -> (r: Option<usize>)
    ensures
        match r {
            Some(aligned) => value + 3 <= usize::MAX && aligned == padded(value as int),
            None => value + 3 > usize::MAX,
        },
{
    if value > usize::MAX - 3 {
        return None;
    }
    let up: usize = value + 3;
    Some(up - up % 4)
}

fn is_trailer(name: &[u8]) -> (r: bool)
    ensures
        r == (name@ == cpio_trailer()),
{
    let trailer: [u8; 10] = [0x54, 0x52, 0x41, 0x49, 0x4c, 0x45, 0x52, 0x21, 0x21, 0x21];
    assert(trailer@ =~= cpio_trailer());
    text::same_bytes(name, &trailer)
}

fn is_init(name: &[u8]) -> (r: bool)
    ensures
        r == (name@ == init_path()),
{
    let init: [u8; 8] = [0x62, 0x69, 0x6e, 0x2f, 0x69, 0x6e, 0x69, 0x74];
    assert(init@ =~= init_path());
    text::same_bytes(name, &init)
}

/// Checks that each field of a header is a hexadecimal number.
fn check_fields(header: &[u8]) -> (r: Result<(), ArchiveError>)
    requires
        header@.len() == 110,
    ensures
        r == if all_hex(header@.subrange(6, 110)) {
            Ok::<(), ArchiveError>(())
        } else {
            Err::<(), ArchiveError>(ArchiveError::InvalidHexField)
        },
{
    let ghost fields = header@.subrange(6, 110);
    let mut field_offset: usize = 6;
    while field_offset < CPIO_HEADER_SIZE
        invariant
            header@.len() == 110,
            fields == header@.subrange(6, 110),
            6 <= field_offset <= 110,
            field_offset % 8 == 6,
            forall|i: int| 0 <= i < field_offset - 6 ==> hex_digit(#[trigger] fields[i]) is Some,
        decreases 110 - field_offset,
    {
        let field: &[u8] = &header[field_offset..field_offset + 8];
        match parse_hex_u32(field) {
            Err(error) => {
                assert(!all_hex(fields)) by {
                    let i = choose|i: int|
                        0 <= i < 8 && hex_digit(#[trigger] field@[i]) is None;
                    assert(fields[field_offset - 6 + i] == field@[i]);
                }
                return Err(error);
            },
            Ok(_) => {},
        }
        assert forall|i: int| 0 <= i < field_offset + 8 - 6 implies hex_digit(
            #[trigger] fields[i],
        ) is Some by {
            if i >= field_offset - 6 {
                assert(field@[i - (field_offset - 6)] == fields[i]);
            }
        }
        field_offset = field_offset + 8;
    }
    Ok(())
}

proof fn lemma_field_hex(archive: Seq<u8>, offset: int, index: int)
    requires
        0 <= offset,
        offset + 110 <= archive.len(),
        0 <= index < 13,
        all_hex(archive.subrange(offset + 6, offset + 110)),
    ensures
        all_hex(header_field(archive, offset, index)),
        header_field(archive, offset, index).len() == 8,
{
    let all = archive.subrange(offset + 6, offset + 110);
    let field = header_field(archive, offset, index);
    assert forall|i: int| 0 <= i < field.len() implies hex_digit(#[trigger] field[i]) is Some by {
        assert(field[i] == all[8 * index + i]);
    }
}

fn read_field(header: &[u8], index: usize, archive: &[u8], offset: usize) -> (r: u32)
    requires
        offset + 110 <= archive@.len(),
        header@ == archive@.subrange(offset as int, offset + 110),
        all_hex(archive@.subrange(offset + 6, offset + 110)),
        index < 13,
    ensures
        r == hex_number(header_field(archive@, offset as int, index as int)),
{
    let field: &[u8] = &header[6 + 8 * index..14 + 8 * index];
    proof {
        assert(field@ =~= header_field(archive@, offset as int, index as int));
        lemma_field_hex(archive@, offset as int, index as int);
    }
    match parse_hex_u32(field) {
        Ok(value) => value,
        Err(_) => 0,
    }
}

/// Reads the entry that starts at `offset`.
pub fn parse_entry(archive: &[u8], offset: usize) -> (r: Result<ParsedEntry<'_>, ArchiveError>)
    ensures
        match entry_at(archive@, offset as int) {
            Ok(entry) => r is Ok && r->Ok_0.model() == entry,
            Err(error) => r is Err && r->Err_0 == error,
        },
{
    let length: usize = archive.len();
    let header_end: usize = match offset.checked_add(CPIO_HEADER_SIZE) {
        None => {
            return Err(ArchiveError::EntryOutsideArchive);
        },
        Some(end) => end,
    };
    if header_end > length {
        return Err(ArchiveError::TruncatedHeader);
    }
    let header: &[u8] = &archive[offset..header_end];
    let magic: [u8; 6] = [0x30, 0x37, 0x30, 0x37, 0x30, 0x31];
    assert(magic@ =~= cpio_magic());
    assert(header@.subrange(0, 6) =~= archive@.subrange(offset as int, offset + 6));
    if !text::same_bytes(&header[0..6], &magic) {
        return Err(ArchiveError::InvalidMagic);
    }
    assert(header@.subrange(6, 110) =~= archive@.subrange(offset + 6, offset + 110));
    match check_fields(header) {
        Err(error) => {
            return Err(error);
        },
        Ok(_) => {},
    }
    let mode: u32 = read_field(header, 1, archive, offset);
    let file_size: usize = read_field(header, 6, archive, offset) as usize;
    let name_size: usize = read_field(header, 11, archive, offset) as usize;
    let checksum: u32 = read_field(header, 12, archive, offset);
    if checksum != 0 {
        return Err(ArchiveError::ChecksumUnsupported);
    }
    if name_size == 0 {
        return Err(ArchiveError::InvalidNameSize);
    }
    if name_size > MAX_PATH_LEN + 1 {
        return Err(ArchiveError::NameTooLong);
    }
    if name_size > length - header_end {
        return Err(ArchiveError::EntryOutsideArchive);
    }
    let name_end: usize = header_end + name_size;
    if archive[name_end - 1] != 0 {
        return Err(ArchiveError::NameMissingTerminator);
    }
    let name: &[u8] = &archive[header_end..name_end - 1];
    let data_start: usize = match align_up_four(name_end) {
        None => {
            return Err(ArchiveError::EntryOutsideArchive);
        },
        Some(start) => start,
    };
    if data_start > length || file_size > length - data_start {
        return Err(ArchiveError::EntryOutsideArchive);
    }
    let data_end: usize = data_start + file_size;
    let data: &[u8] = &archive[data_start..data_end];
    let next_offset: usize = match align_up_four(data_end) {
        None => {
            return Err(ArchiveError::EntryOutsideArchive);
        },
        Some(next) => next,
    };
    if next_offset > length {
        return Err(ArchiveError::EntryOutsideArchive);
    }
    let trailer: bool = is_trailer(name);
    if trailer && data.len() > 0 {
        return Err(ArchiveError::InvalidTrailer);
    }
    if !trailer && !valid_path(name) {
        return Err(ArchiveError::InvalidPath);
    }
    Ok(ParsedEntry { name, data, mode, next_offset, trailer })
}

/// A path of at most 96 bytes.
#[derive(Clone, Copy)]
pub struct PathField {
    bytes: [u8; MAX_PATH_LEN],
    len: usize,
}

impl View for PathField {
    type V = Seq<u8>;

    closed spec fn view(&self) -> Seq<u8> {
        self.bytes@.take(self.len as int)
    }
}

/// A path of plain names holds nothing but ASCII.
proof fn lemma_path_ascii(path: Seq<u8>)
    requires
        path_ok(path),
    ensures
        text::all_ascii(path),
        path.len() > 0,
{
    assert forall|i: int| 0 <= i < path.len() implies #[trigger] path[i] < 128 by {
        assert(path[i] == 0x2f || plain_byte(path[i]));
    }
    if path.len() == 0 {
        assert(is_component(path, 0, 0));
    }
}

impl PathField {
    /// The field is empty or holds a relative path of plain names.
    pub closed spec fn wf(&self) -> bool {
        self.len <= 96 && (self.len == 0 || path_ok(self@))
    }

    pub fn empty() -> (r: Self)
        ensures
            r.wf(),
            r@ == Seq::<u8>::empty(),
    {
        let field = PathField { bytes: [0; MAX_PATH_LEN], len: 0 };
        assert(field@ =~= Seq::<u8>::empty());
        field
    }

    pub fn from_bytes(bytes: &[u8]) -> (r: Result<Self, ArchiveError>)
        ensures
            if bytes@.len() > 96 {
                r is Err && r->Err_0 == ArchiveError::NameTooLong
            } else if !path_ok(bytes@) {
                r is Err && r->Err_0 == ArchiveError::InvalidPath
            } else {
                r is Ok && r->Ok_0.wf() && r->Ok_0@ == bytes@
            },
    {
        if bytes.len() > MAX_PATH_LEN {
            return Err(ArchiveError::NameTooLong);
        }
        if !valid_path(bytes) {
            return Err(ArchiveError::InvalidPath);
        }
        let mut field = PathField::empty();
        let mut index: usize = 0;
        while index < bytes.len()
            invariant
                index <= bytes@.len() <= 96,
                forall|i: int| 0 <= i < index ==> field.bytes@[i] == bytes@[i],
            decreases bytes@.len() - index,
        {
            field.bytes[index] = bytes[index];
            index = index + 1;
        }
        field.len = bytes.len();
        assert(field@ =~= bytes@);
        Ok(field)
    }

    pub fn as_str(&self) -> (r: &str)
        requires
            self.wf(),
        ensures
            vstd::utf8::encode_utf8(r@) == self@,
    {
        let used: &[u8] = &self.bytes[0..self.len];
        assert(used@ =~= self@);
        proof {
            if self@.len() > 0 {
                lemma_path_ascii(self@);
            }
            text::lemma_ascii_is_utf8(self@);
        }
        match core::str::from_utf8(used) {
            Ok(path) => path,
            Err(_) => "",
        }
    }
}

/// What is kept of one entry.
#[derive(Clone, Copy)]
pub struct EntryInfo {
    pub path: PathField,
    pub size: u64,
    pub mode: u32,
    pub regular: bool,
    pub directory: bool,
}

impl EntryInfo {
    pub fn empty() -> (r: Self)
        ensures
            r.path.wf(),
            r.path@ == Seq::<u8>::empty(),
            r.size == 0,
            r.mode == 0,
            !r.regular,
            !r.directory,
    {
        EntryInfo { path: PathField::empty(), size: 0, mode: 0, regular: false, directory: false }
    }

    /// What is kept is what the entry says.
    pub open spec fn describes(&self, entry: ArchiveEntry) -> bool {
        &&& self.path.wf()
        &&& self.path@ == entry.name
        &&& self.size == entry.data.len()
        &&& self.mode == entry.mode
        &&& self.regular == is_regular(entry.mode)
        &&& self.directory == is_directory(entry.mode)
    }
}

/// Walks the archive from `offset` on, adding entries to those `found`: the entries up to the
/// trailer, the end of the archive or the first error, and how the walk ended. `Some` is the
/// place behind the trailer, `None` an archive that ends without one.
pub open spec fn scan_from(archive: Seq<u8>, offset: int, found: Seq<ArchiveEntry>) -> (
    Seq<ArchiveEntry>,
    Result<Option<int>, ArchiveError>,
)
    decreases archive.len() - offset,
{
    if offset < 0 || offset >= archive.len() {
        (found, Ok(None))
    } else {
        match entry_at(archive, offset) {
            Err(error) => (found, Err(error)),
            Ok(entry) => {
                proof {
                    lemma_entry_advances(archive, offset);
                }
                if entry.trailer {
                    (found, Ok(Some(entry.next_offset)))
                } else if found.len() >= 32 {
                    (found, Err(ArchiveError::TooManyEntries))
                } else if entry.name == init_path() && !is_regular(entry.mode) {
                    (found, Err(ArchiveError::InitNotRegular))
                } else {
                    scan_from(archive, entry.next_offset, found.push(entry))
                }
            },
        }
    }
}

/// The entries of an archive, up to its trailer or the first error.
pub open spec fn entries_of(archive: Seq<u8>) -> Seq<ArchiveEntry> {
    scan_from(archive, 0, Seq::empty()).0
}

/// Whether an archive is fit for use, and if not, why.
pub open spec fn verdict(archive: Seq<u8>) -> Result<(), ArchiveError> {
    match scan_from(archive, 0, Seq::empty()).1 {
        Err(error) => Err(error),
        Ok(None) => Err(ArchiveError::MissingTrailer),
        Ok(Some(end)) => if exists|i: int| end <= i < archive.len() && #[trigger] archive[i] != 0 {
            Err(ArchiveError::TrailingGarbage)
        } else if last_init(entries_of(archive)) is None {
            Err(ArchiveError::MissingInit)
        } else {
            Ok(())
        },
    }
}

/// How many entries are regular files.
pub open spec fn regular_count(entries: Seq<ArchiveEntry>) -> nat
    decreases entries.len(),
{
    if entries.len() == 0 {
        0
    } else {
        regular_count(entries.drop_last()) + if is_regular(entries.last().mode) {
            1nat
        } else {
            0nat
        }
    }
}

/// How many entries are directories.
pub open spec fn directory_count(entries: Seq<ArchiveEntry>) -> nat
    decreases entries.len(),
{
    if entries.len() == 0 {
        0
    } else {
        directory_count(entries.drop_last()) + if is_directory(entries.last().mode) {
            1nat
        } else {
            0nat
        }
    }
}

/// How many bytes the regular files hold.
pub open spec fn regular_bytes(entries: Seq<ArchiveEntry>) -> nat
    decreases entries.len(),
{
    if entries.len() == 0 {
        0
    } else {
        regular_bytes(entries.drop_last()) + if is_regular(entries.last().mode) {
            entries.last().data.len()
        } else {
            0
        }
    }
}

/// How many bytes the last entry named `bin/init` holds.
pub open spec fn last_init(entries: Seq<ArchiveEntry>) -> Option<nat>
    decreases entries.len(),
{
    if entries.len() == 0 {
        None
    } else if entries.last().name == init_path() {
        Some(entries.last().data.len())
    } else {
        last_init(entries.drop_last())
    }
}

#[derive(Clone, Copy, PartialEq, Eq, Structural)]
pub struct Snapshot {
    pub initialized: bool,
    pub module_found: bool,
    pub valid: bool,
    pub module_start: u64,
    pub module_end: u64,
    pub archive_size: u64,
    pub entry_count: u64,
    pub regular_files: u64,
    pub directories: u64,
    pub total_file_bytes: u64,
    pub init_found: bool,
    pub init_size: u64,
    pub last_error: Option<ArchiveError>,
}

/// What the kernel keeps of its archive.
pub struct ArchiveState {
    initialized: bool,
    module_found: bool,
    valid: bool,
    module_start: u64,
    module_end: u64,
    entry_count: usize,
    regular_files: u64,
    directories: u64,
    total_file_bytes: u64,
    init_found: bool,
    init_size: u64,
    entries: [EntryInfo; MAX_ENTRIES],
    last_error: Option<ArchiveError>,
}

impl ArchiveState {
    pub closed spec fn wf(&self) -> bool {
        self.entry_count <= 32
    }

    /// What is kept of each entry, in the order of the archive.
    pub closed spec fn infos(&self) -> Seq<EntryInfo> {
        self.entries@.take(self.entry_count as int)
    }

    /// The table and the counts are those of `entries`.
    pub open spec fn holds(&self, entries: Seq<ArchiveEntry>) -> bool {
        &&& self.wf()
        &&& self.infos().len() == entries.len()
        &&& forall|i: int|
            0 <= i < entries.len() ==> (#[trigger] self.infos()[i]).describes(entries[i])
        &&& self.report().entry_count == entries.len()
        &&& self.report().regular_files == regular_count(entries)
        &&& self.report().directories == directory_count(entries)
        &&& self.report().total_file_bytes == bits::sat(regular_bytes(entries) as int)
        &&& self.report().init_found == (last_init(entries) is Some)
        &&& self.report().init_size == match last_init(entries) {
            Some(size) => size as int,
            None => 0,
        }
    }

    /// What the state reports of itself.
    pub closed spec fn report(&self) -> Snapshot {
        Snapshot {
            initialized: self.initialized,
            module_found: self.module_found,
            valid: self.valid,
            module_start: self.module_start,
            module_end: self.module_end,
            archive_size: self.module_end.saturating_sub(self.module_start),
            entry_count: self.entry_count as u64,
            regular_files: self.regular_files,
            directories: self.directories,
            total_file_bytes: self.total_file_bytes,
            init_found: self.init_found,
            init_size: self.init_size,
            last_error: self.last_error,
        }
    }

    pub fn empty() -> (r: Self)
        ensures
            r.holds(Seq::empty()),
            r.report() == (Snapshot {
                initialized: false,
                module_found: false,
                valid: false,
                module_start: 0,
                module_end: 0,
                archive_size: 0,
                entry_count: 0,
                regular_files: 0,
                directories: 0,
                total_file_bytes: 0,
                init_found: false,
                init_size: 0,
                last_error: None,
            }),
    {
        ArchiveState {
            initialized: false,
            module_found: false,
            valid: false,
            module_start: 0,
            module_end: 0,
            entry_count: 0,
            regular_files: 0,
            directories: 0,
            total_file_bytes: 0,
            init_found: false,
            init_size: 0,
            entries: [EntryInfo::empty(); MAX_ENTRIES],
            last_error: None,
        }
    }

    pub(crate) fn snapshot(&self) -> (r: Snapshot)
        ensures
            r == self.report(),
    {
        Snapshot {
            initialized: self.initialized,
            module_found: self.module_found,
            valid: self.valid,
            module_start: self.module_start,
            module_end: self.module_end,
            archive_size: self.module_end.saturating_sub(self.module_start),
            entry_count: self.entry_count as u64,
            regular_files: self.regular_files,
            directories: self.directories,
            total_file_bytes: self.total_file_bytes,
            init_found: self.init_found,
            init_size: self.init_size,
            last_error: self.last_error,
        }
    }

    /// Takes up one more entry.
    fn record(&mut self, parsed: &ParsedEntry, path: PathField, entries: Ghost<Seq<ArchiveEntry>>)
        requires
            old(self).holds(entries@),
            entries@.len() < 32,
            path.wf(),
            path@ == parsed.name@,
        ensures
            final(self).holds(entries@.push(parsed.model())),
            final(self).initialized == old(self).initialized,
            final(self).module_found == old(self).module_found,
            final(self).valid == old(self).valid,
            final(self).module_start == old(self).module_start,
            final(self).module_end == old(self).module_end,
            final(self).last_error == old(self).last_error,
    {
        let ghost more = entries@.push(parsed.model());
        assert(more.drop_last() =~= entries@);
        let mode: u32 = parsed.mode;
        assert((mode & 0xf000 == 0x8000) == ((mode / 4096) % 16 == 8)) by (bit_vector);
        assert((mode & 0xf000 == 0x4000) == ((mode / 4096) % 16 == 4)) by (bit_vector);
        proof {
            lemma_counts(entries@);
        }
        let file_type: u32 = mode & MODE_TYPE_MASK;
        let regular: bool = file_type == MODE_REGULAR;
        let directory: bool = file_type == MODE_DIRECTORY;
        let size: u64 = parsed.data.len() as u64;
        let slot: usize = self.entry_count;
        self.entries[slot] = EntryInfo { path, size, mode, regular, directory };
        self.entry_count = slot + 1;
        if regular {
            self.regular_files = self.regular_files.saturating_add(1);
            self.total_file_bytes = self.total_file_bytes.saturating_add(size);
        }
        if directory {
            self.directories = self.directories.saturating_add(1);
        }
        if is_init(parsed.name) {
            self.init_found = true;
            self.init_size = size;
        }
        assert(self.infos().drop_last() =~= old(self).infos());
        assert forall|i: int| 0 <= i < more.len() implies (
        #[trigger] self.infos()[i]).describes(more[i]) by {
            if i < slot {
                assert(self.infos()[i] == old(self).infos()[i]);
            }
        }
    }

    /// Reads the whole archive and takes up its entries.
    fn parse_archive(&mut self, archive: &[u8]) -> (r: Result<(), ArchiveError>)
        requires
            old(self).holds(Seq::empty()),
        ensures
            r == verdict(archive@),
            final(self).holds(entries_of(archive@)),
            final(self).initialized == old(self).initialized,
            final(self).module_found == old(self).module_found,
            final(self).valid == old(self).valid,
            final(self).module_start == old(self).module_start,
            final(self).module_end == old(self).module_end,
            final(self).last_error == old(self).last_error,
    {
        let mut offset: usize = 0;
        let mut trailer_found: bool = false;
        let ghost mut found: Seq<ArchiveEntry> = Seq::empty();
        while offset < archive.len() && !trailer_found
            invariant
                offset <= archive@.len(),
                self.holds(found),
                self.initialized == old(self).initialized,
                self.module_found == old(self).module_found,
                self.valid == old(self).valid,
                self.module_start == old(self).module_start,
                self.module_end == old(self).module_end,
                self.last_error == old(self).last_error,
                !trailer_found ==> scan_from(archive@, 0, Seq::empty()) == scan_from(
                    archive@,
                    offset as int,
                    found,
                ),
                trailer_found ==> scan_from(archive@, 0, Seq::empty()) == (
                    found,
                    Ok::<Option<int>, ArchiveError>(Some(offset as int)),
                ),
            decreases
                    archive@.len() - offset + if trailer_found {
                        0int
                    } else {
                        1
                    },
        {
            let parsed: ParsedEntry = match parse_entry(archive, offset) {
                Err(error) => {
                    return Err(error);
                },
                Ok(parsed) => parsed,
            };
            proof {
                lemma_entry_advances(archive@, offset as int);
            }
            if parsed.trailer {
                trailer_found = true;
            } else {
                if self.entry_count >= MAX_ENTRIES {
                    return Err(ArchiveError::TooManyEntries);
                }
                let mode: u32 = parsed.mode;
                assert((mode & 0xf000 == 0x8000) == ((mode / 4096) % 16 == 8)) by (bit_vector);
                if is_init(parsed.name) && mode & MODE_TYPE_MASK != MODE_REGULAR {
                    return Err(ArchiveError::InitNotRegular);
                }
                let path: PathField = match PathField::from_bytes(parsed.name) {
                    Err(error) => {
                        return Err(error);
                    },
                    Ok(path) => path,
                };
                self.record(&parsed, path, Ghost(found));
                proof {
                    found = found.push(parsed.model());
                }
            }
            offset = parsed.next_offset;
        }
        if !trailer_found {
            return Err(ArchiveError::MissingTrailer);
        }
        if !all_zero_from(archive, offset) {
            return Err(ArchiveError::TrailingGarbage);
        }
        if !self.init_found {
            return Err(ArchiveError::MissingInit);
        }
        Ok(())
    }
}

proof fn lemma_counts(entries: Seq<ArchiveEntry>)
    ensures
        regular_count(entries) <= entries.len(),
        directory_count(entries) <= entries.len(),
    decreases entries.len(),
{
    if entries.len() > 0 {
        lemma_counts(entries.drop_last());
    }
}

fn all_zero_from(archive: &[u8], from: usize) -> (r: bool)
    requires
        from <= archive@.len(),
    ensures
        r == !exists|i: int| from <= i < archive@.len() && #[trigger] archive@[i] != 0,
{
    let mut index: usize = from;
    while index < archive.len()
        invariant
            from <= index <= archive@.len(),
            forall|i: int| from <= i < index ==> #[trigger] archive@[i] == 0,
        decreases archive@.len() - index,
    {
        if archive[index] != 0 {
            return false;
        }
        index = index + 1;
    }
    true
}

/// The module that the boot loader says it loaded: where it stands, whether its range makes
/// sense, and how many bytes it has.
#[derive(Clone, Copy, PartialEq, Eq, Structural)]
pub struct BootModule {
    pub start: u64,
    pub end: u64,
    pub valid: bool,
    pub size: u64,
}

/// Whether the module is read at all.
pub open spec fn readable(module: Option<BootModule>) -> bool {
    module is Some && module->0.valid && module->0.size <= MAX_ARCHIVE_SIZE
}

/// What comes of starting up on `module`, whose bytes are `archive`.
pub open spec fn boot_outcome(module: Option<BootModule>, archive: Seq<u8>) -> Result<
    (),
    ArchiveError,
> {
    match module {
        None => Err(ArchiveError::MissingModule),
        Some(found) => if !found.valid {
            Err(ArchiveError::InvalidModule)
        } else if found.size > MAX_ARCHIVE_SIZE {
            Err(ArchiveError::ArchiveTooLarge)
        } else {
            verdict(archive)
        },
    }
}

/// The entries that are kept after starting up on `module`, whose bytes are `archive`.
pub open spec fn boot_entries(module: Option<BootModule>, archive: Seq<u8>) -> Seq<ArchiveEntry> {
    if readable(module) {
        entries_of(archive)
    } else {
        Seq::empty()
    }
}

/// What the state reports after starting up on `module`, whose bytes are `archive`.
pub open spec fn boot_report(module: Option<BootModule>, archive: Seq<u8>) -> Snapshot {
    let outcome = boot_outcome(module, archive);
    let entries = boot_entries(module, archive);
    let start = match module {
        Some(found) => found.start,
        None => 0,
    };
    let end = match module {
        Some(found) => found.end,
        None => 0,
    };
    Snapshot {
        initialized: true,
        module_found: module is Some,
        valid: outcome is Ok,
        module_start: start,
        module_end: end,
        archive_size: bits::max_of(0, end - start) as u64,
        entry_count: entries.len() as u64,
        regular_files: regular_count(entries) as u64,
        directories: directory_count(entries) as u64,
        total_file_bytes: bits::sat(regular_bytes(entries) as int) as u64,
        init_found: last_init(entries) is Some,
        init_size: match last_init(entries) {
            Some(size) => size as u64,
            None => 0,
        },
        last_error: match outcome {
            Ok(_) => None,
            Err(error) => Some(error),
        },
    }
}

/// Starts up on the module that the boot loader left, whose bytes are `archive`.
pub fn init(state: &mut ArchiveState, module: Option<BootModule>, archive: &[u8]) -> (r: Snapshot)
    ensures
        r == boot_report(module, archive@),
        r == final(state).report(),
        final(state).holds(boot_entries(module, archive@)),
{
    let mut fresh = ArchiveState::empty();
    fresh.initialized = true;
    let result = match module {
        None => Err(ArchiveError::MissingModule),
        Some(found) => {
            fresh.module_found = true;
            fresh.module_start = found.start;
            fresh.module_end = found.end;
            if !found.valid {
                Err(ArchiveError::InvalidModule)
            } else if found.size > MAX_ARCHIVE_SIZE {
                Err(ArchiveError::ArchiveTooLarge)
            } else {
                fresh.parse_archive(archive)
            }
        },
    };
    match result {
        Ok(_) => {
            fresh.valid = true;
        },
        Err(error) => {
            fresh.last_error = Some(error);
        },
    }
    let report = fresh.snapshot();
    *state = fresh;
    report
}

/// What the state reports of itself.
pub fn snapshot(state: &ArchiveState) -> (r: Snapshot)
    ensures
        r == state.report(),
{
    state.snapshot()
}

/// What is kept of the entry with the number `index`.
pub fn entry(state: &ArchiveState, index: usize) -> (r: Option<EntryInfo>)
    requires
        state.wf(),
    ensures
        r == if index < state.infos().len() {
            Some(state.infos()[index as int])
        } else {
            None
        },
{
    if index >= state.entry_count {
        return None;
    }
    Some(state.entries[index])
}

/// A file of the archive, still in place.
pub struct File<'a> {
    pub path: &'a str,
    pub data: &'a [u8],
    pub mode: u32,
}

impl File<'_> {
    /// The file is the one that `entry` holds.
    pub open spec fn shows(&self, entry: ArchiveEntry) -> bool {
        &&& vstd::utf8::encode_utf8(self.path@) == entry.name
        &&& self.data@ == entry.data
        &&& self.mode == entry.mode
    }
}

/// The first entry named `name`, from `offset` on and before the trailer. Behind an entry that
/// is malformed nothing is found.
pub open spec fn lookup_from(archive: Seq<u8>, offset: int, name: Seq<u8>) -> Option<ArchiveEntry>
    decreases archive.len() - offset,
{
    if offset < 0 || offset >= archive.len() {
        None
    } else {
        match entry_at(archive, offset) {
            Err(_) => None,
            Ok(entry) => {
                proof {
                    lemma_entry_advances(archive, offset);
                }
                if entry.trailer {
                    None
                } else if entry.name == name {
                    Some(entry)
                } else {
                    lookup_from(archive, entry.next_offset, name)
                }
            },
        }
    }
}

/// The entry that a request for `path` gives, in a system whose state reports `report` and
/// whose module holds `archive`.
pub open spec fn requested(report: Snapshot, archive: Seq<u8>, path: Seq<u8>) -> Option<
    ArchiveEntry,
> {
    if !report.valid || report.module_end <= report.module_start {
        None
    } else {
        match normalized(path) {
            None => None,
            Some(name) => lookup_from(archive, 0, name),
        }
    }
}

/// Looks up a file by its path, with or without a leading slash. `archive` holds the bytes of
/// the module that the state was made from.
pub fn find<'a>(state: &ArchiveState, archive: &'a [u8], path: &str) -> (r: Option<File<'a>>)
    ensures
        match requested(state.report(), archive@, vstd::utf8::encode_utf8(path@)) {
            Some(entry) => r is Some && r->0.shows(entry),
            None => r is None,
        },
{
    let name: &[u8] = match normalize_requested_path(path.as_bytes()) {
        None => {
            return None;
        },
        Some(name) => name,
    };
    if !state.valid || state.module_end <= state.module_start {
        return None;
    }
    let mut offset: usize = 0;
    while offset < archive.len()
        invariant
            offset <= archive@.len(),
            requested(state.report(), archive@, vstd::utf8::encode_utf8(path@)) == lookup_from(
                archive@,
                offset as int,
                name@,
            ),
        decreases archive@.len() - offset,
    {
        let parsed: ParsedEntry<'a> = match parse_entry(archive, offset) {
            Err(_) => {
                return None;
            },
            Ok(parsed) => parsed,
        };
        proof {
            lemma_entry_advances(archive@, offset as int);
        }
        if parsed.trailer {
            return None;
        }
        if text::same_bytes(parsed.name, name) {
            proof {
                lemma_path_ascii(parsed.name@);
                text::lemma_ascii_is_utf8(parsed.name@);
            }
            return match core::str::from_utf8(parsed.name) {
                Ok(found) => Some(File { path: found, data: parsed.data, mode: parsed.mode }),
                Err(_) => None,
            };
        }
        offset = parsed.next_offset;
    }
    None
}

/// What a healthy system answers: it has its archive, the archive has the shape that the kernel
/// needs, and paths that are not in it are not found.
pub open spec fn healthy(report: Snapshot, archive: Seq<u8>) -> bool {
    match requested(report, archive, vstd::utf8::encode_utf8("/bin/init"@)) {
        None => false,
        Some(program) => {
            &&& report.initialized
            &&& report.module_found
            &&& report.valid
            &&& report.last_error is None
            &&& report.entry_count >= 2
            &&& report.regular_files >= 1
            &&& report.directories >= 1
            &&& report.init_found
            &&& report.init_size == program.data.len()
            &&& program.name == init_path()
            &&& is_regular(program.mode)
            &&& program.data.len() >= 4
            &&& program.data.take(4) == seq![0x7fu8, 0x45u8, 0x4cu8, 0x46u8]
            &&& requested(report, archive, vstd::utf8::encode_utf8("/missing"@)) is None
            &&& requested(report, archive, vstd::utf8::encode_utf8("../bin/init"@)) is None
        },
    }
}

/// Asks a few questions whose answers are known in a healthy system.
pub fn selftest(state: &ArchiveState, archive: &[u8]) -> (r: bool)
    ensures
        r == healthy(state.report(), archive@),
{
    let report: Snapshot = snapshot(state);
    let program = match find(state, archive, "/bin/init") {
        None => {
            return false;
        },
        Some(program) => program,
    };
    let mode: u32 = program.mode;
    assert((mode & 0xf000 == 0x8000) == ((mode / 4096) % 16 == 8)) by (bit_vector);
    let magic: [u8; 4] = [0x7f, 0x45, 0x4c, 0x46];
    assert(magic@ =~= seq![0x7fu8, 0x45u8, 0x4cu8, 0x46u8]);
    let is_elf: bool = program.data.len() >= 4 && text::same_bytes(&program.data[0..4], &magic);
    assert(program.data@.len() >= 4 ==> program.data@.subrange(0, 4) =~= program.data@.take(4));
    report.initialized && report.module_found && report.valid && report.last_error.is_none()
        && report.entry_count >= 2 && report.regular_files >= 1 && report.directories >= 1
        && report.init_found && report.init_size == program.data.len() as u64 && is_init(
        program.path.as_bytes(),
    ) && mode & MODE_TYPE_MASK == MODE_REGULAR && is_elf && find(
        state,
        archive,
        "/missing",
    ).is_none() && find(state, archive, "../bin/init").is_none()
}

pub open spec fn error_text(error: ArchiveError) -> Seq<char> {
    match error {
        ArchiveError::MissingModule => "Multiboot2 initramfs module is missing"@,
        ArchiveError::InvalidModule => "initramfs module range is invalid"@,
        ArchiveError::ArchiveTooLarge => "initramfs exceeds the size limit"@,
        ArchiveError::TruncatedHeader => "CPIO header is truncated"@,
        ArchiveError::InvalidMagic => "CPIO newc magic is invalid"@,
        ArchiveError::InvalidHexField => "CPIO hexadecimal field is invalid"@,
        ArchiveError::InvalidNameSize => "CPIO name size is invalid"@,
        ArchiveError::NameTooLong => "CPIO path exceeds the kernel limit"@,
        ArchiveError::NameMissingTerminator => "CPIO path is not NUL terminated"@,
        ArchiveError::InvalidPath => "CPIO path is unsafe or invalid"@,
        ArchiveError::EntryOutsideArchive => "CPIO entry extends outside the archive"@,
        ArchiveError::ChecksumUnsupported => "CPIO checksum field is unsupported"@,
        ArchiveError::MissingTrailer => "CPIO trailer is missing"@,
        ArchiveError::InvalidTrailer => "CPIO trailer contains file data"@,
        ArchiveError::TrailingGarbage => "CPIO has non-zero data after its trailer"@,
        ArchiveError::TooManyEntries => "CPIO contains too many entries"@,
        ArchiveError::MissingInit => "/bin/init is missing from initramfs"@,
        ArchiveError::InitNotRegular => "/bin/init is not a regular file"@,
    }
}

/// A sentence for each error.
pub fn error_name(error: ArchiveError) -> (r: &'static str)
    ensures
        r@ == error_text(error),
{
    match error {
        ArchiveError::MissingModule => "Multiboot2 initramfs module is missing",
        ArchiveError::InvalidModule => "initramfs module range is invalid",
        ArchiveError::ArchiveTooLarge => "initramfs exceeds the size limit",
        ArchiveError::TruncatedHeader => "CPIO header is truncated",
        ArchiveError::InvalidMagic => "CPIO newc magic is invalid",
        ArchiveError::InvalidHexField => "CPIO hexadecimal field is invalid",
        ArchiveError::InvalidNameSize => "CPIO name size is invalid",
        ArchiveError::NameTooLong => "CPIO path exceeds the kernel limit",
        ArchiveError::NameMissingTerminator => "CPIO path is not NUL terminated",
        ArchiveError::InvalidPath => "CPIO path is unsafe or invalid",
        ArchiveError::EntryOutsideArchive => "CPIO entry extends outside the archive",
        ArchiveError::ChecksumUnsupported => "CPIO checksum field is unsupported",
        ArchiveError::MissingTrailer => "CPIO trailer is missing",
        ArchiveError::InvalidTrailer => "CPIO trailer contains file data",
        ArchiveError::TrailingGarbage => "CPIO has non-zero data after its trailer",
        ArchiveError::TooManyEntries => "CPIO contains too many entries",
        ArchiveError::MissingInit => "/bin/init is missing from initramfs",
        ArchiveError::InitNotRegular => "/bin/init is not a regular file",
    }
}

} // verus!
