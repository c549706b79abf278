//! Which bytes of an archive decide what its entries are, and when an archive is accepted.
use crate::initramfs::{ArchiveEntry, ArchiveError};
use crate::{bits, initramfs, initramfs_laws, mkinitramfs};
use vstd::prelude::*;

verus! {

/// The value of a digit from `0` to `9`, `a` to `f` or `A` to `F`, sixteen for any other byte.
pub open spec fn digit_value(byte: u8) -> int {
    if 0x30 <= byte <= 0x39 {
        byte - 0x30
    } else if 0x61 <= byte <= 0x66 {
        byte - 0x57
    } else if 0x41 <= byte <= 0x46 {
        byte - 0x37
    } else {
        16
    }
}

/// The number in eight hexadecimal digits, the highest one first.
#[verifier::opaque]
pub open spec fn hex_at(s: Seq<u8>, at: int) -> int {
    0x1000_0000 * digit_value(s[at]) + 0x100_0000 * digit_value(s[at + 1]) + 0x10_0000
        * digit_value(s[at + 2]) + 0x1_0000 * digit_value(s[at + 3]) + 0x1000 * digit_value(
        s[at + 4],
    ) + 0x100 * digit_value(s[at + 5]) + 0x10 * digit_value(s[at + 6]) + digit_value(s[at + 7])
}

/// The bytes of `s` from `at` to `end` are hexadecimal digits.
pub open spec fn digits_between(s: Seq<u8>, at: int, end: int) -> bool {
    forall|i: int| at <= i < end ==> digit_value(#[trigger] s[i]) < 16
}

proof fn lemma_all_hex(s: Seq<u8>, at: int, end: int)
    requires
        0 <= at <= end <= s.len(),
    ensures
        initramfs::all_hex(s.subrange(at, end)) <==> digits_between(s, at, end),
{
    let part = s.subrange(at, end);
    if initramfs::all_hex(part) {
        assert forall|i: int| at <= i < end implies digit_value(#[trigger] s[i]) < 16 by {
            assert(initramfs::hex_digit(part[i - at]) is Some);
        }
    }
    if digits_between(s, at, end) {
        assert forall|i: int| 0 <= i < part.len() implies initramfs::hex_digit(
            #[trigger] part[i],
        ) is Some by {
            assert(digit_value(s[at + i]) < 16);
        }
    }
}

/// Each further digit counts after sixteen times what stands before it.
proof fn lemma_prefix(digits: Seq<u8>, count: int)
    requires
        1 <= count <= digits.len(),
        digits_between(digits, 0, digits.len() as int),
    ensures
        initramfs::hex_number(digits.take(count)) == 16 * initramfs::hex_number(
            digits.take(count - 1),
        ) + digit_value(digits[count - 1]),
        0 <= digit_value(digits[count - 1]) < 16,
{
    assert(digits.take(count).drop_last() =~= digits.take(count - 1));
    assert(digits.take(count).last() == digits[count - 1]);
}

/// Eight digits, in either case, are read with the highest one first; anything else is no number.
#[verifier::rlimit(40)]
pub proof fn law_digits_are_read_in_order(digits: Seq<u8>)
    requires
        digits.len() == 8,
    ensures
        initramfs::all_hex(digits) <==> digits_between(digits, 0, 8),
        initramfs::all_hex(digits) ==> initramfs::hex_number(digits) == hex_at(digits, 0),
{
    assert(digits.subrange(0, 8) =~= digits);
    lemma_all_hex(digits, 0, 8);
    if digits_between(digits, 0, 8) {
        lemma_prefix(digits, 1);
        lemma_prefix(digits, 2);
        lemma_prefix(digits, 3);
        lemma_prefix(digits, 4);
        lemma_prefix(digits, 5);
        lemma_prefix(digits, 6);
        lemma_prefix(digits, 7);
        lemma_prefix(digits, 8);
        assert(digits.take(8) =~= digits);
        assert(initramfs::hex_number(digits.take(0)) == 0);
        reveal(hex_at);
    }
}

/// The byte may stand in a name: a letter, a digit, `.`, `_` or `-`.
pub open spec fn name_byte(byte: u8) -> bool {
    ||| 0x30 <= byte <= 0x39
    ||| 0x41 <= byte <= 0x5a
    ||| 0x61 <= byte <= 0x7a
    ||| byte == 0x2e
    ||| byte == 0x5f
    ||| byte == 0x2d
}

/// A name starts at `i`: at the start of the path, or behind a slash.
pub open spec fn starts_at(path: Seq<u8>, i: int) -> bool {
    i == 0 || path[i - 1] == 0x2f
}

/// A name ends before `i`: at the end of the path, or before a slash.
pub open spec fn ends_at(path: Seq<u8>, i: int) -> bool {
    i == path.len() || path[i] == 0x2f
}

/// The path has bytes, all of them name bytes or slashes; it neither starts nor ends with a slash
/// nor has two of them in a row; and no name in it is `.` or `..`.
pub open spec fn stays_inside(path: Seq<u8>) -> bool {
    &&& path.len() > 0
    &&& path[0] != 0x2f
    &&& path[path.len() - 1] != 0x2f
    &&& forall|i: int| 0 <= i < path.len() ==> #[trigger] path[i] == 0x2f || name_byte(path[i])
    &&& forall|i: int|
        0 <= i < path.len() - 1 ==> !(#[trigger] path[i] == 0x2f && path[i + 1] == 0x2f)
    &&& forall|i: int|
        0 <= i < path.len() && #[trigger] path[i] == 0x2e && starts_at(path, i) ==> !ends_at(
            path,
            i + 1,
        )
    &&& forall|i: int|
        0 <= i < path.len() - 1 && #[trigger] path[i] == 0x2e && path[i + 1] == 0x2e && starts_at(
            path,
            i,
        ) ==> !ends_at(path, i + 2)
}

/// A path is valid exactly where it stays inside the archive's root and is made of plain names.
#[verifier::rlimit(40)]
pub proof fn law_valid_paths_stay_inside(path: Seq<u8>)
    ensures
        initramfs::path_ok(path) <==> stays_inside(path),
{
    let n = path.len() as int;
    if initramfs::path_ok(path) {
        if n == 0 {
            assert(initramfs::is_component(path, 0, 0));
        }
        if n > 0 && path[0] == 0x2f {
            assert(initramfs::is_component(path, 0, 0));
        }
        if n > 0 && path[n - 1] == 0x2f {
            assert(initramfs::is_component(path, n, n));
        }
        assert forall|i: int| 0 <= i < n implies #[trigger] path[i] == 0x2f || name_byte(
            path[i],
        ) by {
            assert(path[i] == 0x2f || initramfs::plain_byte(path[i]));
        }
        assert forall|i: int| 0 <= i < n - 1 implies !(#[trigger] path[i] == 0x2f && path[i + 1]
            == 0x2f) by {
            if path[i] == 0x2f && path[i + 1] == 0x2f {
                assert(initramfs::is_component(path, i + 1, i + 1));
            }
        }
        assert forall|i: int|
            0 <= i < n && #[trigger] path[i] == 0x2e && starts_at(path, i) implies !ends_at(
            path,
            i + 1,
        ) by {
            if ends_at(path, i + 1) {
                assert(initramfs::is_component(path, i, i + 1));
            }
        }
        assert forall|i: int|
            0 <= i < n - 1 && #[trigger] path[i] == 0x2e && path[i + 1] == 0x2e && starts_at(
                path,
                i,
            ) implies !ends_at(path, i + 2) by {
            if ends_at(path, i + 2) {
                assert(initramfs::is_component(path, i, i + 2));
            }
        }
    }
    if stays_inside(path) {
        assert forall|i: int| 0 <= i < path.len() implies #[trigger] path[i] == 0x2f
            || initramfs::plain_byte(path[i]) by {
            assert(path[i] == 0x2f || name_byte(path[i]));
        }
        assert forall|from: int, to: int| #[trigger]
            initramfs::is_component(path, from, to) implies initramfs::component_ok(
            path,
            from,
            to,
        ) by {
            if from == to && from > 0 && to < n {
                assert(path[from - 1] == 0x2f && path[from - 1 + 1] == 0x2f);
            }
            if from < to {
                assert(path[from] != 0x2f);
                assert(starts_at(path, from));
                assert(ends_at(path, to));
            }
        }
    }
}

/// A requested path names what stands behind one leading slash, where there is one, as long as
/// that stays inside the archive's root; any other path names nothing.
pub proof fn law_requested_paths(path: Seq<u8>, name: Seq<u8>)
    ensures
        initramfs::normalized(path) == Some(name) <==> stays_inside(name) && (path == name || path
            == seq![0x2fu8] + name),
        initramfs::normalized(path) is None <==> !stays_inside(path) && !(path.len() > 0 && path[0]
            == 0x2f && stays_inside(path.skip(1))),
{
    law_valid_paths_stay_inside(name);
    law_valid_paths_stay_inside(path);
    if path.len() > 0 && path[0] == 0x2f {
        let rest = path.subrange(1, path.len() as int);
        assert(rest =~= path.skip(1));
        law_valid_paths_stay_inside(rest);
        assert(path =~= seq![0x2fu8] + rest);
        if path == seq![0x2fu8] + name {
            assert(rest =~= name);
        }
    } else {
        assert(path != seq![0x2fu8] + name) by {
            assert((seq![0x2fu8] + name)[0] == 0x2f);
        }
    }
}

/// A file is regular, or a directory, by the four bits of its mode that say so.
pub proof fn law_modes_tell_files_from_directories(mode: u32)
    ensures
        initramfs::is_regular(mode) <==> mode & 0xf000 == 0x8000,
        initramfs::is_directory(mode) <==> mode & 0xf000 == 0x4000,
{
    assert((mode / 4096) % 16 == 8 <==> mode & 0xf000 == 0x8000) by (bit_vector);
    assert((mode / 4096) % 16 == 4 <==> mode & 0xf000 == 0x4000) by (bit_vector);
}

/// `after` is the first multiple of four from `before` on.
pub open spec fn next_four(before: int, after: int) -> bool {
    after % 4 == 0 && before <= after < before + 4
}

/// How many bytes the name takes in the entry at `offset`, with its terminator.
pub open spec fn name_room(archive: Seq<u8>, offset: int) -> int {
    hex_at(archive, offset + 94)
}

/// Where the data of the entry at `offset` starts.
pub open spec fn data_place(archive: Seq<u8>, offset: int) -> int {
    (offset + 110 + name_room(archive, offset) + 3) / 4 * 4
}

/// Where the data of the entry at `offset` ends.
pub open spec fn data_stop(archive: Seq<u8>, offset: int) -> int {
    data_place(archive, offset) + hex_at(archive, offset + 54)
}

/// The name in the entry at `offset`.
pub open spec fn name_in(archive: Seq<u8>, offset: int) -> Seq<u8> {
    archive.subrange(offset + 110, offset + 110 + name_room(archive, offset) - 1)
}

/// The name of the entry that ends an archive, `TRAILER!!!`.
pub open spec fn is_end_name(name: Seq<u8>) -> bool {
    &&& name.len() == 10
    &&& name[0] == 0x54 && name[1] == 0x52 && name[2] == 0x41 && name[3] == 0x49
    &&& name[4] == 0x4c && name[5] == 0x45 && name[6] == 0x52
    &&& name[7] == 0x21 && name[8] == 0x21 && name[9] == 0x21
}

/// The name of the program that the kernel starts, `bin/init`.
pub open spec fn is_init_name(name: Seq<u8>) -> bool {
    &&& name.len() == 8
    &&& name[0] == 0x62 && name[1] == 0x69 && name[2] == 0x6e && name[3] == 0x2f
    &&& name[4] == 0x69 && name[5] == 0x6e && name[6] == 0x69 && name[7] == 0x74
}

proof fn lemma_names(name: Seq<u8>)
    ensures
        name == initramfs::cpio_trailer() <==> is_end_name(name),
        name == initramfs::init_path() <==> is_init_name(name),
{
    if is_end_name(name) {
        assert(name =~= initramfs::cpio_trailer());
    }
    if is_init_name(name) {
        assert(name =~= initramfs::init_path());
    }
}

/// Check number `n` that the entry at `offset` has to pass: its header is inside the archive, has
/// the magic number and nothing but digits behind it, has no checksum and a name of one to 97
/// bytes with its terminator; name and data are inside the archive; and it is the end, without
/// data, or has a path that stays inside the root.
pub open spec fn entry_passes(archive: Seq<u8>, offset: int, n: int) -> bool {
    if n == 0 {
        offset + 110 <= archive.len()
    } else if n == 1 {
        archive[offset] == 0x30 && archive[offset + 1] == 0x37 && archive[offset + 2] == 0x30
            && archive[offset + 3] == 0x37 && archive[offset + 4] == 0x30 && archive[offset + 5]
            == 0x31
    } else if n == 2 {
        digits_between(archive, offset + 6, offset + 110)
    } else if n == 3 {
        hex_at(archive, offset + 102) == 0
    } else if n == 4 {
        name_room(archive, offset) != 0
    } else if n == 5 {
        name_room(archive, offset) <= 97
    } else if n == 6 {
        offset + 110 + name_room(archive, offset) <= archive.len()
    } else if n == 7 {
        archive[offset + 110 + name_room(archive, offset) - 1] == 0
    } else if n == 8 {
        (data_stop(archive, offset) + 3) / 4 * 4 <= archive.len()
    } else if n == 9 {
        is_end_name(name_in(archive, offset)) ==> data_stop(archive, offset) == data_place(
            archive,
            offset,
        )
    } else {
        is_end_name(name_in(archive, offset)) || stays_inside(name_in(archive, offset))
    }
}

/// The error that stands for check number `n`.
pub open spec fn entry_error(n: int) -> ArchiveError {
    if n == 0 {
        ArchiveError::TruncatedHeader
    } else if n == 1 {
        ArchiveError::InvalidMagic
    } else if n == 2 {
        ArchiveError::InvalidHexField
    } else if n == 3 {
        ArchiveError::ChecksumUnsupported
    } else if n == 4 {
        ArchiveError::InvalidNameSize
    } else if n == 5 {
        ArchiveError::NameTooLong
    } else if n == 6 {
        ArchiveError::EntryOutsideArchive
    } else if n == 7 {
        ArchiveError::NameMissingTerminator
    } else if n == 8 {
        ArchiveError::EntryOutsideArchive
    } else if n == 9 {
        ArchiveError::InvalidTrailer
    } else {
        ArchiveError::InvalidPath
    }
}

/// The first `n` checks on the entry at `offset` are passed.
pub open spec fn entry_passes_before(archive: Seq<u8>, offset: int, n: int) -> bool {
    forall|m: int| 0 <= m < n ==> #[trigger] entry_passes(archive, offset, m)
}

#[verifier::rlimit(40)]
proof fn lemma_field(archive: Seq<u8>, offset: int, index: int)
    requires
        0 <= offset,
        offset + 110 <= archive.len(),
        0 <= index < 13,
        digits_between(archive, offset + 6, offset + 110),
    ensures
        initramfs::hex_number(initramfs::header_field(archive, offset, index)) == hex_at(
            archive,
            offset + 6 + 8 * index,
        ),
        0 <= hex_at(archive, offset + 6 + 8 * index) <= u32::MAX,
{
    let at = offset + 6 + 8 * index;
    let field = initramfs::header_field(archive, offset, index);
    reveal(hex_at);
    assert forall|i: int| 0 <= i < 8 implies digit_value(#[trigger] field[i]) < 16 by {
        assert(digit_value(archive[at + i]) < 16);
    }
    law_digits_are_read_in_order(field);
    assert(forall|i: int| 0 <= i < 8 ==> #[trigger] field[i] == archive[at + i]);
    assert(field[0] == archive[at] && field[1] == archive[at + 1] && field[2] == archive[at + 2]
        && field[3] == archive[at + 3] && field[4] == archive[at + 4] && field[5] == archive[at + 5]
        && field[6] == archive[at + 6] && field[7] == archive[at + 7]);
    assert(digit_value(field[0]) < 16 && digit_value(field[1]) < 16 && digit_value(field[2]) < 16
        && digit_value(field[3]) < 16 && digit_value(field[4]) < 16 && digit_value(field[5]) < 16
        && digit_value(field[6]) < 16 && digit_value(field[7]) < 16);
}

proof fn lemma_four(position: int)
    requires
        0 <= position,
    ensures
        initramfs::padded(position) == (position + 3) / 4 * 4,
        next_four(position, initramfs::padded(position)),
{
    bits::lemma_ceil_to(position, 4);
}

/// Name, data, mode and extent of an entry are what its bytes say, and an entry is read exactly
/// where it passes every check. Otherwise the first check that fails decides the answer. This is
/// for archives that leave room for rounding up their length.
#[verifier::rlimit(40)]
pub proof fn law_bytes_decide_the_entry(archive: Seq<u8>, offset: int, n: int)
    requires
        0 <= offset,
        archive.len() + 3 <= usize::MAX,
        offset + 110 <= usize::MAX,
    ensures
        initramfs::entry_at(archive, offset) is Ok <==> entry_passes_before(archive, offset, 11),
        0 <= n < 11 && entry_passes_before(archive, offset, n) && !entry_passes(archive, offset, n)
            ==> initramfs::entry_at(archive, offset) == Err::<ArchiveEntry, ArchiveError>(
            entry_error(n),
        ),
        initramfs::entry_at(archive, offset) matches Ok(entry) ==> {
            &&& entry.name == name_in(archive, offset)
            &&& entry.data == archive.subrange(
                data_place(archive, offset),
                data_stop(archive, offset),
            )
            &&& entry.data.len() == hex_at(archive, offset + 54)
            &&& entry.mode == hex_at(archive, offset + 14)
            &&& next_four(
                offset + 110 + name_room(archive, offset),
                data_place(archive, offset),
            )
            &&& next_four(data_stop(archive, offset), entry.next_offset)
            &&& entry.trailer <==> is_end_name(entry.name)
        },
{
    assert(n > 0 && entry_passes_before(archive, offset, n) ==> entry_passes(archive, offset, 0));
    assert(n > 1 && entry_passes_before(archive, offset, n) ==> entry_passes(archive, offset, 1));
    assert(n > 2 && entry_passes_before(archive, offset, n) ==> entry_passes(archive, offset, 2));
    assert(n > 3 && entry_passes_before(archive, offset, n) ==> entry_passes(archive, offset, 3));
    assert(n > 4 && entry_passes_before(archive, offset, n) ==> entry_passes(archive, offset, 4));
    assert(n > 5 && entry_passes_before(archive, offset, n) ==> entry_passes(archive, offset, 5));
    assert(n > 6 && entry_passes_before(archive, offset, n) ==> entry_passes(archive, offset, 6));
    assert(n > 7 && entry_passes_before(archive, offset, n) ==> entry_passes(archive, offset, 7));
    assert(n > 8 && entry_passes_before(archive, offset, n) ==> entry_passes(archive, offset, 8));
    assert(n > 9 && entry_passes_before(archive, offset, n) ==> entry_passes(archive, offset, 9));
    assert(entry_passes_before(archive, offset, 11) <==> (entry_passes(archive, offset, 0)
        && entry_passes(archive, offset, 1) && entry_passes(archive, offset, 2) && entry_passes(
        archive,
        offset,
        3,
    ) && entry_passes(archive, offset, 4) && entry_passes(archive, offset, 5) && entry_passes(
        archive,
        offset,
        6,
    ) && entry_passes(archive, offset, 7) && entry_passes(archive, offset, 8) && entry_passes(
        archive,
        offset,
        9,
    ) && entry_passes(archive, offset, 10)));
    if offset + 110 <= archive.len() {
        let start = archive.subrange(offset, offset + 6);
        assert(start[0] == archive[offset] && start[1] == archive[offset + 1] && start[2]
            == archive[offset + 2] && start[3] == archive[offset + 3] && start[4] == archive[offset
            + 4] && start[5] == archive[offset + 5]);
        assert(start == initramfs::cpio_magic() <==> entry_passes(archive, offset, 1)) by {
            if entry_passes(archive, offset, 1) {
                assert(start =~= initramfs::cpio_magic());
            }
        }
        lemma_all_hex(archive, offset + 6, offset + 110);
        if digits_between(archive, offset + 6, offset + 110) {
            lemma_field(archive, offset, 1);
            lemma_field(archive, offset, 6);
            lemma_field(archive, offset, 11);
            lemma_field(archive, offset, 12);
            lemma_four(offset + 110 + name_room(archive, offset));
            lemma_four(data_stop(archive, offset));
            let name = name_in(archive, offset);
            lemma_names(name);
            law_valid_paths_stay_inside(name);
        }
    }
}

/// The entries of the archive stand one behind the other from its start: entry `i` at `places[i]`,
/// the next one where that says. None of them is the end, and `bin/init` is a regular file.
pub open spec fn stand_in_a_row(
    archive: Seq<u8>,
    entries: Seq<ArchiveEntry>,
    places: Seq<int>,
) -> bool {
    &&& entries.len() <= 32
    &&& places.len() == entries.len() + 1
    &&& places[0] == 0
    &&& forall|i: int|
        0 <= i < entries.len() ==> {
            &&& 0 <= #[trigger] places[i] < archive.len()
            &&& initramfs::entry_at(archive, places[i]) == Ok::<ArchiveEntry, ArchiveError>(
                entries[i],
            )
            &&& places[i + 1] == entries[i].next_offset
            &&& !entries[i].trailer
            &&& is_init_name(entries[i].name) ==> entries[i].mode & 0xf000 == 0x8000
        }
}

proof fn lemma_row(archive: Seq<u8>, entries: Seq<ArchiveEntry>, places: Seq<int>, count: int)
    requires
        stand_in_a_row(archive, entries, places),
        0 <= count <= entries.len(),
    ensures
        0 <= places[count],
        initramfs::scan_from(archive, 0, Seq::empty()) == initramfs::scan_from(
            archive,
            places[count],
            entries.take(count),
        ),
    decreases count,
{
    if count == 0 {
        assert(entries.take(0) =~= Seq::<ArchiveEntry>::empty());
    } else {
        lemma_row(archive, entries, places, count - 1);
        let entry = entries[count - 1];
        assert(0 <= places[count - 1] < archive.len());
        initramfs::lemma_entry_advances(archive, places[count - 1]);
        lemma_names(entry.name);
        law_modes_tell_files_from_directories(entry.mode);
        assert(entries.take(count - 1).push(entry) =~= entries.take(count));
    }
}

/// What an archive holds and whether it is accepted follows from the row of its entries. The row
/// ends at the trailer: then the archive is accepted exactly where nothing but zeros follows and
/// one of the entries is `bin/init`. Or it ends with the archive, without a trailer; or with an
/// entry that cannot be read, with a thirty-third entry, or with a `bin/init` that is no regular
/// file, and the archive is refused for that. In each case the entries of the row are kept.
#[verifier::rlimit(40)]
pub proof fn law_rows_of_entries_decide(
    archive: Seq<u8>,
    entries: Seq<ArchiveEntry>,
    places: Seq<int>,
)
    requires
        stand_in_a_row(archive, entries, places),
    ensures
        ({
            let end = places[entries.len() as int];
            let verdict = initramfs::verdict(archive);
            let next = initramfs::entry_at(archive, end);
            let full = entries.len() == 32;
            let clean = next is Ok && forall|i: int|
                next->Ok_0.next_offset <= i < archive.len() ==> #[trigger] archive[i] == 0;
            let init = exists|i: int|
                0 <= i < entries.len() && is_init_name((#[trigger] entries[i]).name);
            &&& end >= archive.len() ==> initramfs::entries_of(archive) == entries && verdict
                == Err::<(), ArchiveError>(ArchiveError::MissingTrailer)
            &&& end < archive.len() ==> match next {
                Err(error) => initramfs::entries_of(archive) == entries && verdict == Err::<
                    (),
                    ArchiveError,
                >(error),
                Ok(last) => if last.trailer {
                    &&& initramfs::entries_of(archive) == entries
                    &&& verdict is Ok <==> clean && init
                    &&& !clean ==> verdict == Err::<(), ArchiveError>(
                        ArchiveError::TrailingGarbage,
                    )
                    &&& clean && !init ==> verdict == Err::<(), ArchiveError>(
                        ArchiveError::MissingInit,
                    )
                } else if full {
                    initramfs::entries_of(archive) == entries && verdict == Err::<
                        (),
                        ArchiveError,
                    >(ArchiveError::TooManyEntries)
                } else if is_init_name(last.name) && last.mode & 0xf000 != 0x8000 {
                    initramfs::entries_of(archive) == entries && verdict == Err::<
                        (),
                        ArchiveError,
                    >(ArchiveError::InitNotRegular)
                } else {
                    stand_in_a_row(archive, entries.push(last), places.push(last.next_offset))
                },
            }
        }),
{
    let count = entries.len() as int;
    let end = places[count];
    lemma_row(archive, entries, places, count);
    assert(entries.take(count) =~= entries);
    initramfs_laws::lemma_last_init(entries);
    assert((exists|i: int|
        0 <= i < entries.len() && (#[trigger] entries[i]).name == initramfs::init_path())
        <==> (exists|i: int| 0 <= i < entries.len() && is_init_name((#[trigger] entries[i]).name)))
        by {
        if exists|i: int|
            0 <= i < entries.len() && (#[trigger] entries[i]).name == initramfs::init_path() {
            let i = choose|i: int|
                0 <= i < entries.len() && (#[trigger] entries[i]).name == initramfs::init_path();
            lemma_names(entries[i].name);
        }
        if exists|i: int| 0 <= i < entries.len() && is_init_name((#[trigger] entries[i]).name) {
            let i = choose|i: int|
                0 <= i < entries.len() && is_init_name((#[trigger] entries[i]).name);
            lemma_names(entries[i].name);
        }
    }
    if end < archive.len() && initramfs::entry_at(archive, end) is Ok {
        let last = initramfs::entry_at(archive, end)->Ok_0;
        initramfs::lemma_entry_advances(archive, end);
        lemma_names(last.name);
        law_modes_tell_files_from_directories(last.mode);
        let more = entries.push(last);
        let further = places.push(last.next_offset);
        if !last.trailer && count < 32 && !(is_init_name(last.name) && last.mode & 0xf000
            != 0x8000) {
            assert forall|i: int| 0 <= i < more.len() implies {
                &&& 0 <= #[trigger] further[i] < archive.len()
                &&& initramfs::entry_at(archive, further[i]) == Ok::<ArchiveEntry, ArchiveError>(
                    more[i],
                )
                &&& further[i + 1] == more[i].next_offset
                &&& !more[i].trailer
                &&& is_init_name(more[i].name) ==> more[i].mode & 0xf000 == 0x8000
            } by {
                if i < count {
                    assert(further[i] == places[i] && further[i + 1] == places[i + 1]);
                    assert(0 <= places[i] < archive.len());
                }
            }
        }
    }
}

/// Every archive starts with the empty row.
pub proof fn law_rows_start_empty(archive: Seq<u8>)
    ensures
        stand_in_a_row(archive, Seq::empty(), seq![0int]),
{
}

/// The counts of an archive grow entry by entry: a regular file counts as one and with its bytes,
/// a directory as one, and the last `bin/init` says how large the program is.
pub proof fn law_counts_grow_by_the_entry(entries: Seq<ArchiveEntry>, entry: ArchiveEntry)
    ensures
        initramfs::regular_count(Seq::empty()) == 0,
        initramfs::directory_count(Seq::empty()) == 0,
        initramfs::regular_bytes(Seq::empty()) == 0,
        initramfs::last_init(Seq::empty()) is None,
        initramfs::regular_count(entries.push(entry)) == initramfs::regular_count(entries) + if
            entry.mode & 0xf000 == 0x8000 {
            1int
        } else {
            0int
        },
        initramfs::directory_count(entries.push(entry)) == initramfs::directory_count(entries)
            + if entry.mode & 0xf000 == 0x4000 {
            1int
        } else {
            0int
        },
        initramfs::regular_bytes(entries.push(entry)) == initramfs::regular_bytes(entries) + if
            entry.mode & 0xf000 == 0x8000 {
            entry.data.len() as int
        } else {
            0int
        },
        initramfs::last_init(entries.push(entry)) == if is_init_name(entry.name) {
            Some(entry.data.len())
        } else {
            initramfs::last_init(entries)
        },
{
    law_modes_tell_files_from_directories(entry.mode);
    lemma_names(entry.name);
    assert(entries.push(entry).drop_last() =~= entries);
}

/// The byte is a digit from `0` to `9` or from `a` to `f`.
pub open spec fn written_digit(byte: u8) -> bool {
    0x30 <= byte <= 0x39 || 0x61 <= byte <= 0x66
}

proof fn lemma_written(value: nat, width: nat)
    ensures
        mkinitramfs::hex_text(value, width).len() == width,
        forall|i: int|
            0 <= i < width ==> written_digit(#[trigger] mkinitramfs::hex_text(value, width)[i]),
    decreases width,
{
    if width > 0 {
        lemma_written(value / 16, (width - 1) as nat);
        let shorter = mkinitramfs::hex_text(value / 16, (width - 1) as nat);
        let digits = mkinitramfs::hex_text(value, width);
        assert forall|i: int| 0 <= i < width implies written_digit(#[trigger] digits[i]) by {
            if i < width - 1 {
                assert(written_digit(shorter[i]));
            }
        }
    }
}

proof fn lemma_written_fields(fields: Seq<u32>)
    ensures
        mkinitramfs::fields_text(fields).len() == 8 * fields.len(),
        forall|i: int|
            0 <= i < 8 * fields.len() ==> written_digit(
                #[trigger] mkinitramfs::fields_text(fields)[i],
            ),
    decreases fields.len(),
{
    if fields.len() > 0 {
        let fewer = fields.drop_last();
        lemma_written_fields(fewer);
        lemma_written(fields.last() as nat, 8);
        let before = mkinitramfs::fields_text(fewer);
        let digits = mkinitramfs::hex_text(fields.last() as nat, 8);
        let all = mkinitramfs::fields_text(fields);
        assert forall|i: int| 0 <= i < 8 * fields.len() implies written_digit(
            #[trigger] all[i],
        ) by {
            if i < before.len() {
                assert(written_digit(before[i]));
            } else {
                assert(written_digit(digits[i - before.len()]));
            }
        }
    }
}

/// Thirteen numbers that were written one behind the other are read back.
proof fn lemma_numbers(all: Seq<u8>, at: int, fields: Seq<u32>)
    requires
        fields.len() == 13,
        0 <= at,
        at + 110 <= all.len(),
        all.subrange(at + 6, at + 110) == mkinitramfs::fields_text(fields),
    ensures
        forall|i: int| at + 6 <= i < at + 110 ==> written_digit(#[trigger] all[i]),
        forall|index: int|
            0 <= index < 13 ==> #[trigger] fields[index] == hex_at(all, at + 6 + 8 * index),
{
    let digits = mkinitramfs::fields_text(fields);
    lemma_written_fields(fields);
    initramfs_laws::lemma_fields_text(fields);
    assert forall|i: int| at + 6 <= i < at + 110 implies written_digit(#[trigger] all[i]) by {
        assert(all[i] == digits[i - at - 6]);
    }
    assert forall|index: int| 0 <= index < 13 implies #[trigger] fields[index] == hex_at(
        all,
        at + 6 + 8 * index,
    ) by {
        lemma_field(all, at, index);
        assert(initramfs::header_field(all, at, index) =~= digits.subrange(
            8 * index,
            8 * index + 8,
        ));
    }
}

/// Where the pieces of an appended entry stand.
#[verifier::rlimit(40)]
proof fn lemma_pieces(
    archive: Seq<u8>,
    inode: u32,
    name: Seq<u8>,
    mode: u32,
    links: u32,
    data: Seq<u8>,
)
    requires
        archive.len() % 4 == 0,
    ensures
        ({
            let all = mkinitramfs::appended(archive, inode, name, mode, links, data);
            let fields = mkinitramfs::header_fields(inode, mode, links, data.len(), name.len() + 1);
            let at = archive.len() as int;
            let start = (at + 111 + name.len() + 3) / 4 * 4;
            let stop = start + data.len();
            &&& all.take(at) == archive
            &&& entry_passes(all, at, 1)
            &&& at + 110 <= all.len()
            &&& all.subrange(at + 6, at + 110) == mkinitramfs::fields_text(fields)
            &&& all.subrange(at + 110, at + 110 + name.len()) == name
            &&& all[at + 110 + name.len()] == 0
            &&& forall|i: int| at + 110 + name.len() <= i < start ==> #[trigger] all[i] == 0
            &&& all.subrange(start, stop) == data
            &&& next_four(at + 111 + name.len(), start)
            &&& next_four(stop, all.len() as int)
            &&& forall|i: int| stop <= i < all.len() ==> #[trigger] all[i] == 0
        }),
{
    reveal(mkinitramfs::appended);
    let fields = mkinitramfs::header_fields(inode, mode, links, data.len(), name.len() + 1);
    let digits = mkinitramfs::fields_text(fields);
    let header = initramfs::cpio_magic() + digits;
    let named = archive + header + name.push(0);
    let front = mkinitramfs::padded_bytes(named);
    let all = mkinitramfs::appended(archive, inode, name, mode, links, data);
    let at = archive.len() as int;
    lemma_written_fields(fields);
    lemma_four(named.len() as int);
    lemma_four((front + data).len() as int);
    assert(header.len() == 110);
    assert(front.len() == initramfs::padded(named.len() as int));
    assert(all.len() == initramfs::padded((front + data).len() as int));
    let start = front.len() as int;
    assert forall|i: int| 0 <= i < named.len() implies #[trigger] all[i] == named[i] by {}
    assert forall|i: int| named.len() <= i < start implies #[trigger] all[i] == 0 by {
        assert(all[i] == front[i]);
    }
    assert(all.take(at) =~= archive);
    assert(all.subrange(at, at + 6) =~= initramfs::cpio_magic());
    assert(all.subrange(at, at + 6)[0] == all[at] && all.subrange(at, at + 6)[1] == all[at + 1]
        && all.subrange(at, at + 6)[2] == all[at + 2] && all.subrange(at, at + 6)[3] == all[at + 3]
        && all.subrange(at, at + 6)[4] == all[at + 4] && all.subrange(at, at + 6)[5] == all[at
        + 5]);
    assert(all.subrange(at + 6, at + 110) =~= digits);
    assert(all.subrange(at + 110, at + 110 + name.len()) =~= name);
    assert(all[at + 110 + name.len()] == named[at + 110 + name.len()]);
    assert(all.subrange(start, start + data.len()) =~= data);
}

/// An entry is appended byte by byte as the format has it: the archive stays in front; then come
/// the magic number, thirteen numbers of eight digits each in lower case, the name with its
/// terminator, zeros up to a multiple of four, the data, and zeros up to a multiple of four. The
/// numbers are serial number, mode, owner, group, links, time, size of the data, four for devices,
/// size of the name, and checksum; those that are not given are zero.
#[verifier::rlimit(40)]
pub proof fn law_appended_entries_are_laid_out(
    archive: Seq<u8>,
    inode: u32,
    name: Seq<u8>,
    mode: u32,
    links: u32,
    data: Seq<u8>,
)
    requires
        archive.len() % 4 == 0,
        name.len() < u32::MAX,
        data.len() <= u32::MAX,
    ensures
        ({
            let all = mkinitramfs::appended(archive, inode, name, mode, links, data);
            let at = archive.len() as int;
            let start = data_place(all, at);
            let stop = start + data.len();
            &&& all.take(at) == archive
            &&& entry_passes(all, at, 1)
            &&& forall|i: int| at + 6 <= i < at + 110 ==> written_digit(#[trigger] all[i])
            &&& hex_at(all, at + 6) == inode
            &&& hex_at(all, at + 14) == mode
            &&& hex_at(all, at + 22) == 0
            &&& hex_at(all, at + 30) == 0
            &&& hex_at(all, at + 38) == links
            &&& hex_at(all, at + 46) == 0
            &&& hex_at(all, at + 54) == data.len()
            &&& hex_at(all, at + 62) == 0
            &&& hex_at(all, at + 70) == 0
            &&& hex_at(all, at + 78) == 0
            &&& hex_at(all, at + 86) == 0
            &&& hex_at(all, at + 94) == name.len() + 1
            &&& hex_at(all, at + 102) == 0
            &&& all.subrange(at + 110, at + 110 + name.len()) == name
            &&& all[at + 110 + name.len()] == 0
            &&& forall|i: int| at + 110 + name.len() <= i < start ==> #[trigger] all[i] == 0
            &&& all.subrange(start, stop) == data
            &&& next_four(at + 111 + name.len(), start)
            &&& next_four(stop, all.len() as int)
            &&& forall|i: int| stop <= i < all.len() ==> #[trigger] all[i] == 0
        }),
{
    let all = mkinitramfs::appended(archive, inode, name, mode, links, data);
    let fields = mkinitramfs::header_fields(inode, mode, links, data.len(), name.len() + 1);
    let at = archive.len() as int;
    lemma_pieces(archive, inode, name, mode, links, data);
    lemma_numbers(all, at, fields);
    assert(fields[0] == inode && fields[1] == mode && fields[2] == 0 && fields[3] == 0 && fields[4]
        == links && fields[5] == 0 && fields[6] == data.len() && fields[7] == 0 && fields[8] == 0
        && fields[9] == 0 && fields[10] == 0 && fields[11] == name.len() + 1 && fields[12] == 0);
    assert(data_place(all, at) == (at + 111 + name.len() + 3) / 4 * 4);
}

proof fn lemma_lookup_in_row(
    archive: Seq<u8>,
    entries: Seq<ArchiveEntry>,
    places: Seq<int>,
    name: Seq<u8>,
    count: int,
)
    requires
        stand_in_a_row(archive, entries, places),
        0 <= count <= entries.len(),
        forall|i: int| 0 <= i < count ==> (#[trigger] entries[i]).name != name,
    ensures
        0 <= places[count],
        initramfs::lookup_from(archive, 0, name) == initramfs::lookup_from(
            archive,
            places[count],
            name,
        ),
    decreases count,
{
    if count > 0 {
        lemma_lookup_in_row(archive, entries, places, name, count - 1);
        assert(0 <= places[count - 1] < archive.len());
        assert(entries[count - 1].name != name);
        initramfs::lemma_entry_advances(archive, places[count - 1]);
    }
}

/// A request for a path that stays inside the root, with or without a leading slash, gives the
/// first entry of the row that has that name; where the row ends at the trailer and no entry has
/// it, nothing is found. Nothing is found in an archive that was refused, in one without bytes, or
/// by a path that does not stay inside.
#[verifier::rlimit(40)]
pub proof fn law_requests_find_the_first_entry(
    report: initramfs::Snapshot,
    archive: Seq<u8>,
    entries: Seq<ArchiveEntry>,
    places: Seq<int>,
    name: Seq<u8>,
    path: Seq<u8>,
    index: int,
)
    requires
        stand_in_a_row(archive, entries, places),
        stays_inside(name),
        path == name || path == seq![0x2fu8] + name,
    ensures
        ({
            let found = initramfs::requested(report, archive, path);
            let usable = report.valid && report.module_start < report.module_end;
            let end = places[entries.len() as int];
            &&& !usable ==> found is None
            &&& usable && 0 <= index < entries.len() && entries[index].name == name && (forall|
                i: int,
            |
                0 <= i < index ==> (#[trigger] entries[i]).name != name) ==> found == Some(
                entries[index],
            )
            &&& (forall|i: int|
                0 <= i < entries.len() ==> (#[trigger] entries[i]).name != name) && (end
                >= archive.len() || (initramfs::entry_at(archive, end) is Ok
                && initramfs::entry_at(archive, end)->Ok_0.trailer)) ==> found is None
        }),
{
    law_requested_paths(path, name);
    if 0 <= index < entries.len() && entries[index].name == name && (forall|i: int|
        0 <= i < index ==> (#[trigger] entries[i]).name != name) {
        lemma_lookup_in_row(archive, entries, places, name, index);
        assert(0 <= places[index] < archive.len());
    }
    if forall|i: int| 0 <= i < entries.len() ==> (#[trigger] entries[i]).name != name {
        lemma_lookup_in_row(archive, entries, places, name, entries.len() as int);
    }
}

/// A path that does not stay inside the root is never found.
pub proof fn law_requests_outside_find_nothing(
    report: initramfs::Snapshot,
    archive: Seq<u8>,
    path: Seq<u8>,
)
    requires
        !stays_inside(path),
        !(path.len() > 0 && path[0] == 0x2f && stays_inside(path.skip(1))),
    ensures
        initramfs::requested(report, archive, path) is None,
{
    law_requested_paths(path, path);
}

/// Starting up on a module comes down to the verdict on its bytes, where there is a module, its
/// range is valid, and it has at most 32 MiB. Where it does not, no entry is kept.
pub proof fn law_modules_are_read_where_they_can_be(
    module: Option<initramfs::BootModule>,
    archive: Seq<u8>,
)
    ensures
        ({
            let outcome = initramfs::boot_outcome(module, archive);
            let entries = initramfs::boot_entries(module, archive);
            let report = initramfs::boot_report(module, archive);
            &&& module is None ==> outcome == Err::<(), ArchiveError>(ArchiveError::MissingModule)
            &&& module matches Some(found) ==> {
                &&& !found.valid ==> outcome == Err::<(), ArchiveError>(
                    ArchiveError::InvalidModule,
                )
                &&& found.valid && found.size > 33_554_432 ==> outcome == Err::<(), ArchiveError>(
                    ArchiveError::ArchiveTooLarge,
                )
                &&& found.valid && found.size <= 33_554_432 ==> outcome == initramfs::verdict(
                    archive,
                ) && entries == initramfs::entries_of(archive)
                &&& report.module_start == found.start
                &&& report.module_end == found.end
                &&& found.start <= found.end ==> report.archive_size == found.end - found.start
                &&& found.start > found.end ==> report.archive_size == 0
            }
            &&& module is None || !module->0.valid || module->0.size > 33_554_432 ==> entries.len()
                == 0
            &&& report.initialized
            &&& report.module_found == (module is Some)
            &&& report.valid <==> outcome is Ok
            &&& report.last_error is None <==> outcome is Ok
            &&& outcome is Err ==> report.last_error == Some(outcome->Err_0)
            &&& report.entry_count == entries.len()
        }),
{
    if initramfs::readable(module) {
        initramfs_laws::law_kept_entries_are_sound(archive);
    }
}

/// A healthy system has taken in its archive without an error, and that holds a directory, a file
/// and `/bin/init`: a regular file of the size that is reported, which starts like a program. What
/// is not in the archive, or outside of its root, is not found.
pub proof fn law_healthy_systems_have_their_program(
    report: initramfs::Snapshot,
    archive: Seq<u8>,
)
    requires
        initramfs::healthy(report, archive),
    ensures
        report.initialized && report.module_found && report.valid && report.init_found,
        report.last_error is None,
        report.entry_count >= 2,
        report.regular_files >= 1,
        report.directories >= 1,
        initramfs::requested(report, archive, vstd::utf8::encode_utf8("/missing"@)) is None,
        initramfs::requested(report, archive, vstd::utf8::encode_utf8("../bin/init"@)) is None,
        ({
            let found = initramfs::requested(
                report,
                archive,
                vstd::utf8::encode_utf8("/bin/init"@),
            );
            let program = found->0;
            &&& found is Some
            &&& is_init_name(program.name)
            &&& program.mode & 0xf000 == 0x8000
            &&& program.data.len() == report.init_size
            &&& program.data.len() >= 4
            &&& program.data[0] == 0x7f
            &&& program.data[1] == 0x45
            &&& program.data[2] == 0x4c
            &&& program.data[3] == 0x46
        }),
{
    let program = initramfs::requested(
        report,
        archive,
        vstd::utf8::encode_utf8("/bin/init"@),
    )->0;
    lemma_names(program.name);
    law_modes_tell_files_from_directories(program.mode);
    let start = program.data.take(4);
    assert(start[0] == 0x7f && start[1] == 0x45 && start[2] == 0x4c && start[3] == 0x46);
}

/// Numbers in the part that two archives share are the same.
proof fn lemma_hex_frame(longer: Seq<u8>, shorter: Seq<u8>, at: int)
    requires
        0 <= at,
        at + 8 <= shorter.len() <= longer.len(),
        longer.take(shorter.len() as int) == shorter,
    ensures
        hex_at(longer, at) == hex_at(shorter, at),
{
    reveal(hex_at);
    assert forall|i: int| at <= i < at + 8 implies longer[i] == #[trigger] shorter[i] by {
        assert(longer.take(shorter.len() as int)[i] == longer[i]);
    }
    assert(longer[at] == shorter[at] && longer[at + 1] == shorter[at + 1] && longer[at + 2]
        == shorter[at + 2] && longer[at + 3] == shorter[at + 3] && longer[at + 4] == shorter[at + 4]
        && longer[at + 5] == shorter[at + 5] && longer[at + 6] == shorter[at + 6] && longer[at + 7]
        == shorter[at + 7]);
}

/// An archive that was built around a program holds two entries and nothing behind its trailer: a
/// directory `bin` with two links, and the program as the file `bin/init` with one, byte for byte.
/// Owner, group and others may read both and enter or run them, and the owner may write. The
/// entries and the trailer are numbered from one on.
#[verifier::rlimit(40)]
pub proof fn law_built_archives_hold_their_program(init_elf: Seq<u8>)
    requires
        init_elf.len() <= u32::MAX,
        mkinitramfs::built_archive(init_elf).len() + 3 <= usize::MAX,
    ensures
        ({
            let archive = mkinitramfs::built_archive(init_elf);
            let entries = initramfs::entries_of(archive);
            let (first, second) = (entries[0], entries[1]);
            let (one, two) = (first.next_offset, second.next_offset);
            &&& entries.len() == 2
            &&& first.name == seq![0x62u8, 0x69u8, 0x6eu8]
            &&& first.mode == 0o40755
            &&& first.data.len() == 0
            &&& is_init_name(second.name)
            &&& second.mode == 0o100755
            &&& second.data == init_elf
            &&& initramfs::entry_at(archive, two) is Ok
            &&& initramfs::entry_at(archive, two)->Ok_0.trailer
            &&& initramfs::entry_at(archive, two)->Ok_0.next_offset == archive.len()
            &&& hex_at(archive, 6) == 1 && hex_at(archive, 38) == 2
            &&& hex_at(archive, one + 6) == 2 && hex_at(archive, one + 38) == 1
            &&& hex_at(archive, two + 6) == 3 && hex_at(archive, two + 38) == 1
        }),
{
    let none = Seq::<u8>::empty();
    let name = mkinitramfs::bin_path();
    let path = initramfs::init_path();
    let end = initramfs::cpio_trailer();
    let bin = mkinitramfs::appended(none, 1, name, 0x41ed, 2, none);
    let program = mkinitramfs::appended(bin, 2, path, 0x81ed, 1, init_elf);
    let archive = mkinitramfs::appended(program, 3, end, 0, 1, none);
    mkinitramfs::lemma_names();
    initramfs_laws::law_built_archives_are_accepted(init_elf);
    assert(archive == mkinitramfs::built_archive(init_elf));
    law_appended_entries_are_laid_out(none, 1, name, 0x41ed, 2, none);
    law_appended_entries_are_laid_out(bin, 2, path, 0x81ed, 1, init_elf);
    law_appended_entries_are_laid_out(program, 3, end, 0, 1, none);
    lemma_names(path);
    lemma_names(end);
    assert(none.len() == 0);
    lemma_hex_frame(program, bin, 6);
    lemma_hex_frame(program, bin, 38);
    lemma_hex_frame(archive, program, 6);
    lemma_hex_frame(archive, program, 38);
    lemma_hex_frame(archive, program, bin.len() as int + 6);
    lemma_hex_frame(archive, program, bin.len() as int + 38);
    assert(initramfs_laws::entry_allowed(end, none));
    initramfs_laws::law_appended_entries_read_back(program, 3, end, 0, 1, none, none);
    assert(archive + none =~= archive);
}

} // verus!
