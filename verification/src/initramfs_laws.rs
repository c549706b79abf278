//! What holds of archives as a whole.
use crate::initramfs::{ArchiveEntry, ArchiveError};
use crate::{bits, initramfs, mkinitramfs, user_program};
use vstd::prelude::*;

verus! {

/// Hexadecimal digits read back as the number they were written for.
proof fn lemma_hex_text(value: nat, width: nat)
    requires
        value < initramfs::hex_range(width),
    ensures
        mkinitramfs::hex_text(value, width).len() == width,
        initramfs::all_hex(mkinitramfs::hex_text(value, width)),
        initramfs::hex_number(mkinitramfs::hex_text(value, width)) == value,
    decreases width,
{
    let digits = mkinitramfs::hex_text(value, width);
    if width > 0 {
        let shorter = mkinitramfs::hex_text(value / 16, (width - 1) as nat);
        lemma_hex_text(value / 16, (width - 1) as nat);
        assert(digits.drop_last() =~= shorter);
        assert forall|i: int| 0 <= i < digits.len() implies initramfs::hex_digit(
            #[trigger] digits[i],
        ) is Some by {
            if i < width - 1 {
                assert(initramfs::hex_digit(shorter[i]) is Some);
            }
        }
    }
}

/// The fields of a header stand one behind the other.
pub proof fn lemma_fields_text(fields: Seq<u32>)
    ensures
        mkinitramfs::fields_text(fields).len() == 8 * fields.len(),
        initramfs::all_hex(mkinitramfs::fields_text(fields)),
        forall|i: int|
            #![trigger fields[i]]
            0 <= i < fields.len() ==> initramfs::hex_number(
                mkinitramfs::fields_text(fields).subrange(8 * i, 8 * i + 8),
            ) == fields[i],
    decreases fields.len(),
{
    if fields.len() > 0 {
        let fewer = fields.drop_last();
        let before = mkinitramfs::fields_text(fewer);
        let digits = mkinitramfs::hex_text(fields.last() as nat, 8);
        let all = mkinitramfs::fields_text(fields);
        lemma_fields_text(fewer);
        initramfs::lemma_hex_ranges();
        lemma_hex_text(fields.last() as nat, 8);
        assert forall|i: int| 0 <= i < all.len() implies initramfs::hex_digit(
            #[trigger] all[i],
        ) is Some by {
            if i < before.len() {
                assert(initramfs::hex_digit(before[i]) is Some);
            } else {
                assert(initramfs::hex_digit(digits[i - before.len()]) is Some);
            }
        }
        assert forall|i: int|
            #![trigger fields[i]]
            0 <= i < fields.len() implies initramfs::hex_number(all.subrange(8 * i, 8 * i + 8))
            == fields[i] by {
            if i < fewer.len() {
                assert(fewer[i] == fields[i]);
                assert(all.subrange(8 * i, 8 * i + 8) =~= before.subrange(8 * i, 8 * i + 8));
            } else {
                assert(all.subrange(8 * i, 8 * i + 8) =~= digits);
            }
        }
    }
}

/// The name may stand in an archive, with `data` behind it.
pub open spec fn entry_allowed(name: Seq<u8>, data: Seq<u8>) -> bool {
    &&& name.len() <= 96
    &&& data.len() <= u32::MAX
    &&& if name == initramfs::cpio_trailer() {
        data.len() == 0
    } else {
        initramfs::path_ok(name)
    }
}

/// An entry that was appended to an archive reads back as it was written: name, mode and data,
/// whatever follows it.
pub proof fn law_appended_entries_read_back(
    archive: Seq<u8>,
    inode: u32,
    name: Seq<u8>,
    mode: u32,
    links: u32,
    data: Seq<u8>,
    rest: Seq<u8>,
)
    requires
        archive.len() % 4 == 0,
        entry_allowed(name, data),
        mkinitramfs::appended(archive, inode, name, mode, links, data).len() + rest.len() + 3
            <= usize::MAX,
    ensures
        mkinitramfs::appended(archive, inode, name, mode, links, data).len() % 4 == 0,
        initramfs::entry_at(
            mkinitramfs::appended(archive, inode, name, mode, links, data) + rest,
            archive.len() as int,
        ) == Ok::<ArchiveEntry, ArchiveError>(
            ArchiveEntry {
                name,
                data,
                mode,
                next_offset: mkinitramfs::appended(
                    archive,
                    inode,
                    name,
                    mode,
                    links,
                    data,
                ).len() as int,
                trailer: name == initramfs::cpio_trailer(),
            },
        ),
{
    reveal(mkinitramfs::appended);
    let fields = mkinitramfs::header_fields(inode, mode, links, data.len(), name.len() + 1);
    let digits = mkinitramfs::fields_text(fields);
    let header = initramfs::cpio_magic() + digits;
    let named = archive + header + name.push(0);
    let front = mkinitramfs::padded_bytes(named);
    let entry = mkinitramfs::appended(archive, inode, name, mode, links, data);
    let whole = entry + rest;
    let offset = archive.len() as int;
    lemma_fields_text(fields);
    bits::lemma_ceil_to(named.len() as int, 4);
    bits::lemma_ceil_to((front + data).len() as int, 4);
    assert(header.len() == 110);
    assert(front.len() == initramfs::padded(named.len() as int));
    assert(entry.len() == initramfs::padded((front + data).len() as int));
    assert forall|i: int| 0 <= i < named.len() implies #[trigger] whole[i] == named[i] by {}
    assert forall|i: int| 0 <= i < front.len() implies #[trigger] whole[i] == front[i] by {}
    assert(whole.subrange(offset, offset + 6) =~= initramfs::cpio_magic());
    assert(whole.subrange(offset + 6, offset + 110) =~= digits);
    assert forall|index: int| 0 <= index < 13 implies initramfs::hex_number(
        #[trigger] initramfs::header_field(whole, offset, index),
    ) == fields[index] by {
        assert(initramfs::header_field(whole, offset, index) =~= digits.subrange(
            8 * index,
            8 * index + 8,
        ));
    }
    assert(initramfs::hex_number(initramfs::header_field(whole, offset, 1)) == mode);
    assert(initramfs::hex_number(initramfs::header_field(whole, offset, 6)) == data.len());
    assert(initramfs::hex_number(initramfs::header_field(whole, offset, 11)) == name.len() + 1);
    assert(initramfs::hex_number(initramfs::header_field(whole, offset, 12)) == 0);
    assert(whole[named.len() - 1] == 0);
    assert(whole.subrange(offset + 110, named.len() - 1) =~= name);
    let data_start = front.len() as int;
    assert(whole.subrange(data_start, data_start + data.len()) =~= data);
}

/// `entry` is the first one of `entries`, from `from` on, that is named `name`.
pub open spec fn first_named(
    entries: Seq<ArchiveEntry>,
    from: int,
    name: Seq<u8>,
    entry: ArchiveEntry,
) -> bool {
    exists|i: int|
        from <= i < entries.len() && entry == #[trigger] entries[i] && entry.name == name && forall|
            j: int,
        |
            from <= j < i ==> (#[trigger] entries[j]).name != name
}

/// What the walk over an archive makes of an entry.
pub open spec fn entry_sound(entry: ArchiveEntry) -> bool {
    &&& !entry.trailer
    &&& initramfs::path_ok(entry.name)
    &&& entry.name.len() <= 96
    &&& entry.name == initramfs::init_path() ==> initramfs::is_regular(entry.mode)
}

proof fn lemma_scan(archive: Seq<u8>, offset: int, found: Seq<ArchiveEntry>, name: Seq<u8>)
    requires
        0 <= offset,
        found.len() <= 32,
        forall|i: int| 0 <= i < found.len() ==> entry_sound(#[trigger] found[i]),
    ensures
        ({
            let (all, end) = initramfs::scan_from(archive, offset, found);
            &&& found.len() <= all.len() <= 32
            &&& all.take(found.len() as int) == found
            &&& forall|i: int| 0 <= i < all.len() ==> entry_sound(#[trigger] all[i])
            &&& end is Ok ==> match initramfs::lookup_from(archive, offset, name) {
                Some(entry) => first_named(all, found.len() as int, name, entry),
                None => forall|i: int|
                    found.len() <= i < all.len() ==> (#[trigger] all[i]).name != name,
            }
        }),
    decreases archive.len() - offset,
{
    let (all, end) = initramfs::scan_from(archive, offset, found);
    let from = found.len() as int;
    assert(found.take(from) =~= found);
    if offset < archive.len() && initramfs::entry_at(archive, offset) is Ok {
        let entry = initramfs::entry_at(archive, offset)->Ok_0;
        initramfs::lemma_entry_advances(archive, offset);
        if !entry.trailer && found.len() < 32 && (entry.name != initramfs::init_path()
            || initramfs::is_regular(entry.mode)) {
            let more = found.push(entry);
            lemma_scan(archive, entry.next_offset, more, name);
            assert(all.take(from) =~= all.take(from + 1).take(from));
            assert(more.take(from) =~= found);
            assert(all[from] == all.take(from + 1)[from]);
            assert(all[from] == entry);
            if end is Ok && entry.name == name {
                assert(first_named(all, from, name, entry));
            }
        }
    }
}

/// In an archive that was accepted, a name gives the first entry with that name, and a name
/// that no entry has gives nothing.
pub proof fn law_names_give_their_first_entry(archive: Seq<u8>, name: Seq<u8>)
    requires
        initramfs::verdict(archive) is Ok,
    ensures
        match initramfs::lookup_from(archive, 0, name) {
            Some(entry) => first_named(initramfs::entries_of(archive), 0, name, entry),
            None => forall|i: int|
                0 <= i < initramfs::entries_of(archive).len() ==> (
                #[trigger] initramfs::entries_of(archive)[i]).name != name,
        },
{
    lemma_scan(archive, 0, Seq::empty(), name);
}

/// No archive, accepted or not, gets an entry into the table whose name leaves the archive's
/// root, is longer than a path field, or is `bin/init` without being a regular file.
pub proof fn law_kept_entries_are_sound(archive: Seq<u8>)
    ensures
        initramfs::entries_of(archive).len() <= 32,
        forall|i: int|
            0 <= i < initramfs::entries_of(archive).len() ==> entry_sound(
                #[trigger] initramfs::entries_of(archive)[i],
            ),
{
    lemma_scan(archive, 0, Seq::empty(), Seq::empty());
}

pub proof fn lemma_last_init(entries: Seq<ArchiveEntry>)
    ensures
        initramfs::last_init(entries) is Some <==> exists|i: int|
            0 <= i < entries.len() && (#[trigger] entries[i]).name == initramfs::init_path(),
    decreases entries.len(),
{
    if entries.len() > 0 {
        let fewer = entries.drop_last();
        lemma_last_init(fewer);
        let last = entries.len() - 1;
        if entries[last].name != initramfs::init_path() {
            if exists|i: int|
                0 <= i < entries.len() && (#[trigger] entries[i]).name == initramfs::init_path() {
                let i = choose|i: int|
                    0 <= i < entries.len() && (#[trigger] entries[i]).name
                        == initramfs::init_path();
                assert(fewer[i] == entries[i]);
            }
            if exists|i: int|
                0 <= i < fewer.len() && (#[trigger] fewer[i]).name == initramfs::init_path() {
                let i = choose|i: int|
                    0 <= i < fewer.len() && (#[trigger] fewer[i]).name == initramfs::init_path();
                assert(fewer[i] == entries[i]);
            }
        }
    }
}

/// An archive that was accepted has the program that the kernel starts, as a regular file.
pub proof fn law_accepted_archives_have_init(archive: Seq<u8>)
    requires
        initramfs::verdict(archive) is Ok,
    ensures
        initramfs::lookup_from(archive, 0, initramfs::init_path()) is Some,
        initramfs::is_regular(
            initramfs::lookup_from(archive, 0, initramfs::init_path())->0.mode,
        ),
{
    law_names_give_their_first_entry(archive, initramfs::init_path());
    law_kept_entries_are_sound(archive);
    lemma_last_init(initramfs::entries_of(archive));
}

/// A request never leaves the archive's root: whatever it gives has a name of plain components.
pub proof fn law_requests_stay_inside(
    report: initramfs::Snapshot,
    archive: Seq<u8>,
    path: Seq<u8>,
)
    ensures
        initramfs::requested(report, archive, path) matches Some(entry) ==> initramfs::path_ok(
            entry.name,
        ) && (path == entry.name || path == seq![0x2fu8] + entry.name),
{
    if initramfs::requested(report, archive, path) is Some {
        let name = initramfs::normalized(path)->0;
        lemma_lookup_name(archive, 0, name);
        if path.len() > 0 && path[0] == 0x2f {
            assert(path =~= seq![0x2fu8] + path.subrange(1, path.len() as int));
        }
    }
}

proof fn lemma_lookup_name(archive: Seq<u8>, offset: int, name: Seq<u8>)
    ensures
        initramfs::lookup_from(archive, offset, name) matches Some(entry) ==> entry.name == name,
    decreases archive.len() - offset,
{
    if 0 <= offset < archive.len() && initramfs::entry_at(archive, offset) is Ok {
        initramfs::lemma_entry_advances(archive, offset);
        lemma_lookup_name(archive, initramfs::entry_at(archive, offset)->Ok_0.next_offset, name);
    }
}

/// `missing`, which is in no archive that is built here.
pub open spec fn missing_path() -> Seq<u8> {
    seq![0x6du8, 0x69u8, 0x73u8, 0x73u8, 0x69u8, 0x6eu8, 0x67u8]
}

/// A name without slashes is a path, unless it is empty, `.` or `..`.
proof fn lemma_single_component(path: Seq<u8>)
    requires
        path.len() > 2,
        forall|i: int| 0 <= i < path.len() ==> initramfs::plain_byte(#[trigger] path[i]),
    ensures
        initramfs::path_ok(path),
{
    assert forall|from: int, to: int| #[trigger] initramfs::is_component(
        path,
        from,
        to,
    ) implies initramfs::component_ok(path, from, to) by {
        if from > 0 {
            assert(initramfs::plain_byte(path[from - 1]));
        }
        if to < path.len() {
            assert(initramfs::plain_byte(path[to]));
        }
    }
}

proof fn lemma_init_path()
    ensures
        initramfs::path_ok(initramfs::init_path()),
{
    let path = initramfs::init_path();
    assert forall|from: int, to: int| #[trigger] initramfs::is_component(
        path,
        from,
        to,
    ) implies initramfs::component_ok(path, from, to) by {
        assert(path[3] == 0x2f);
        assert forall|i: int| 0 <= i < 8 && i != 3 implies #[trigger] path[i] != 0x2f && path[i]
            != 0x2e by {}
        if from > 0 {
            assert(path[from - 1] == 0x2f);
            assert(from == 4);
        } else {
            assert(from <= 3);
        }
    }
}

/// The paths that the kernel asks for when it tests itself.
proof fn lemma_request_paths()
    ensures
        initramfs::normalized(vstd::utf8::encode_utf8("/bin/init"@)) == Some(
            initramfs::init_path(),
        ),
        initramfs::normalized(vstd::utf8::encode_utf8("/missing"@)) == Some(missing_path()),
        initramfs::normalized(vstd::utf8::encode_utf8("../bin/init"@)) is None,
{
    reveal_strlit("/bin/init");
    reveal_strlit("/missing");
    reveal_strlit("../bin/init");
    vstd::utf8::is_ascii_chars_encode_utf8("/bin/init"@);
    vstd::utf8::is_ascii_chars_encode_utf8("/missing"@);
    vstd::utf8::is_ascii_chars_encode_utf8("../bin/init"@);
    let init = vstd::utf8::encode_utf8("/bin/init"@);
    let missing = vstd::utf8::encode_utf8("/missing"@);
    let outside = vstd::utf8::encode_utf8("../bin/init"@);
    assert(init[0] == 0x2f);
    assert(missing[0] == 0x2f);
    assert(init.subrange(1, init.len() as int) =~= initramfs::init_path());
    assert(missing.subrange(1, missing.len() as int) =~= missing_path());
    assert(outside[0] == 0x2e && outside[1] == 0x2e && outside[2] == 0x2f);
    assert(initramfs::is_component(outside, 0, 2));
    assert(!initramfs::component_ok(outside, 0, 2));
    lemma_init_path();
    lemma_single_component(missing_path());
}

/// The entries of an archive that was built around `init_elf`.
pub open spec fn built_entries(init_elf: Seq<u8>) -> Seq<ArchiveEntry> {
    let none = Seq::<u8>::empty();
    let bin = mkinitramfs::appended(none, 1, mkinitramfs::bin_path(), 0x41ed, 2, none);
    let program = mkinitramfs::appended(bin, 2, initramfs::init_path(), 0x81ed, 1, init_elf);
    seq![
        ArchiveEntry {
            name: mkinitramfs::bin_path(),
            data: none,
            mode: 0x41ed,
            next_offset: bin.len() as int,
            trailer: false,
        },
        ArchiveEntry {
            name: initramfs::init_path(),
            data: init_elf,
            mode: 0x81ed,
            next_offset: program.len() as int,
            trailer: false,
        },
    ]
}

proof fn lemma_prefix(bin: Seq<u8>, name: Seq<u8>, mode: u32, inode: u32, links: u32, data: Seq<u8>)
    ensures
        ({
            let longer = mkinitramfs::appended(bin, inode, name, mode, links, data);
            &&& longer.len() >= bin.len()
            &&& longer =~= bin + longer.skip(bin.len() as int)
        }),
{
    reveal(mkinitramfs::appended);
    let longer = mkinitramfs::appended(bin, inode, name, mode, links, data);
    let fields = mkinitramfs::header_fields(inode, mode, links, data.len(), name.len() + 1);
    let header = initramfs::cpio_magic() + mkinitramfs::fields_text(fields);
    let named = bin + header + name.push(0);
    bits::lemma_ceil_to(named.len() as int, 4);
    bits::lemma_ceil_to((mkinitramfs::padded_bytes(named) + data).len() as int, 4);
    assert forall|i: int| 0 <= i < bin.len() implies longer[i] == bin[i] by {}
}

proof fn lemma_walk_two(
    archive: Seq<u8>,
    first: ArchiveEntry,
    second: ArchiveEntry,
    last: ArchiveEntry,
)
    requires
        initramfs::entry_at(archive, 0) == Ok::<ArchiveEntry, ArchiveError>(first),
        initramfs::entry_at(archive, first.next_offset) == Ok::<ArchiveEntry, ArchiveError>(second),
        initramfs::entry_at(archive, second.next_offset) == Ok::<ArchiveEntry, ArchiveError>(last),
        0 < first.next_offset < second.next_offset < last.next_offset,
        last.next_offset == archive.len(),
        !first.trailer && !second.trailer && last.trailer,
        first.name != initramfs::init_path(),
        second.name == initramfs::init_path(),
        initramfs::is_regular(second.mode),
    ensures
        initramfs::verdict(archive) is Ok,
        initramfs::entries_of(archive) == seq![first, second],
        initramfs::lookup_from(archive, 0, initramfs::init_path()) == Some(second),
{
    let one = Seq::<ArchiveEntry>::empty().push(first);
    let two = one.push(second);
    assert(two =~= seq![first, second]);
    assert(initramfs::scan_from(archive, second.next_offset, two) == (
        two,
        Ok::<Option<int>, ArchiveError>(Some(archive.len() as int)),
    ));
    assert(initramfs::scan_from(archive, first.next_offset, one) == initramfs::scan_from(
        archive,
        second.next_offset,
        two,
    ));
    assert(initramfs::scan_from(archive, 0, Seq::empty()) == initramfs::scan_from(
        archive,
        first.next_offset,
        one,
    ));
    assert(initramfs::lookup_from(archive, first.next_offset, initramfs::init_path()) == Some(
        second,
    ));
    lemma_last_init(two);
    assert(two[1].name == initramfs::init_path());
}

/// The three entries of a built archive, the trailer with them, read back.
#[verifier::rlimit(40)]
proof fn lemma_built_entries(init_elf: Seq<u8>)
    requires
        init_elf.len() <= u32::MAX,
        mkinitramfs::built_archive(init_elf).len() + 3 <= usize::MAX,
    ensures
        ({
            let archive = mkinitramfs::built_archive(init_elf);
            let entries = built_entries(init_elf);
            &&& initramfs::entry_at(archive, 0) == Ok::<ArchiveEntry, ArchiveError>(entries[0])
            &&& initramfs::entry_at(archive, entries[0].next_offset) == Ok::<
                ArchiveEntry,
                ArchiveError,
            >(entries[1])
            &&& initramfs::entry_at(archive, entries[1].next_offset) == Ok::<
                ArchiveEntry,
                ArchiveError,
            >(
                ArchiveEntry {
                    name: initramfs::cpio_trailer(),
                    data: Seq::empty(),
                    mode: 0,
                    next_offset: archive.len() as int,
                    trailer: true,
                },
            )
        }),
{
    let none = Seq::<u8>::empty();
    let bin = mkinitramfs::appended(none, 1, mkinitramfs::bin_path(), 0x41ed, 2, none);
    let program = mkinitramfs::appended(bin, 2, initramfs::init_path(), 0x81ed, 1, init_elf);
    let trailer = initramfs::cpio_trailer();
    let archive = mkinitramfs::appended(program, 3, trailer, 0, 1, none);
    let program_rest = program.skip(bin.len() as int);
    let trailer_rest = archive.skip(program.len() as int);
    mkinitramfs::lemma_names();
    lemma_init_path();
    lemma_single_component(mkinitramfs::bin_path());
    lemma_prefix(bin, initramfs::init_path(), 0x81ed, 2, 1, init_elf);
    lemma_prefix(program, trailer, 0, 3, 1, none);
    assert(archive == program + trailer_rest);
    assert(program == bin + program_rest);
    assert(archive =~= bin + (program_rest + trailer_rest));
    assert(archive =~= archive + none);
    assert(mkinitramfs::bin_path().len() == 3 && trailer.len() == 10);
    assert(initramfs::init_path().len() == 8);
    let entries = built_entries(init_elf);
    assert(bin.len() % 4 == 0 && initramfs::entry_at(archive, 0) == Ok::<
        ArchiveEntry,
        ArchiveError,
    >(entries[0])) by {
        law_appended_entries_read_back(
            none,
            1,
            mkinitramfs::bin_path(),
            0x41ed,
            2,
            none,
            program_rest + trailer_rest,
        );
    }
    assert(program.len() % 4 == 0 && initramfs::entry_at(archive, bin.len() as int) == Ok::<
        ArchiveEntry,
        ArchiveError,
    >(entries[1])) by {
        law_appended_entries_read_back(
            bin,
            2,
            initramfs::init_path(),
            0x81ed,
            1,
            init_elf,
            trailer_rest,
        );
    }
    law_appended_entries_read_back(program, 3, trailer, 0, 1, none, none);
}

/// An archive that was built around a program is accepted. It holds a directory `bin` and the
/// program, as the regular file `bin/init`, and gives the program back under that name.
pub proof fn law_built_archives_are_accepted(init_elf: Seq<u8>)
    requires
        init_elf.len() <= u32::MAX,
        mkinitramfs::built_archive(init_elf).len() + 3 <= usize::MAX,
    ensures
        initramfs::verdict(mkinitramfs::built_archive(init_elf)) is Ok,
        initramfs::entries_of(mkinitramfs::built_archive(init_elf)) == built_entries(init_elf),
        initramfs::lookup_from(
            mkinitramfs::built_archive(init_elf),
            0,
            initramfs::init_path(),
        ) == Some(built_entries(init_elf)[1]),
{
    let archive = mkinitramfs::built_archive(init_elf);
    let entries = built_entries(init_elf);
    let last = initramfs::entry_at(archive, entries[1].next_offset)->Ok_0;
    lemma_built_entries(init_elf);
    initramfs::lemma_entry_advances(archive, 0);
    initramfs::lemma_entry_advances(archive, entries[0].next_offset);
    initramfs::lemma_entry_advances(archive, entries[1].next_offset);
    assert(entries[0].name.len() == 3);
    assert(initramfs::init_path().len() == 8);
    lemma_walk_two(archive, entries[0], entries[1], last);
    assert(entries =~= seq![entries[0], entries[1]]);
}

/// A kernel that boots with an archive built around an ELF image passes its own test.
pub proof fn law_built_archives_are_healthy(module: initramfs::BootModule, init_elf: Seq<u8>)
    requires
        init_elf.len() <= u32::MAX,
        mkinitramfs::built_archive(init_elf).len() + 3 <= usize::MAX,
        init_elf.len() >= 4,
        init_elf.take(4) == seq![0x7fu8, 0x45u8, 0x4cu8, 0x46u8],
        module.valid,
        module.start < module.end,
        module.size == module.end - module.start,
        module.size == mkinitramfs::built_archive(init_elf).len(),
        module.size <= initramfs::MAX_ARCHIVE_SIZE,
    ensures
        initramfs::healthy(
            initramfs::boot_report(Some(module), mkinitramfs::built_archive(init_elf)),
            mkinitramfs::built_archive(init_elf),
        ),
{
    let archive = mkinitramfs::built_archive(init_elf);
    let entries = built_entries(init_elf);
    law_built_archives_are_accepted(init_elf);
    lemma_two_entries_healthy(module, archive, entries[0], entries[1]);
}

proof fn lemma_two_entries_healthy(
    module: initramfs::BootModule,
    archive: Seq<u8>,
    first: ArchiveEntry,
    second: ArchiveEntry,
)
    requires
        initramfs::verdict(archive) is Ok,
        initramfs::entries_of(archive) == seq![first, second],
        initramfs::lookup_from(archive, 0, initramfs::init_path()) == Some(second),
        first.name == mkinitramfs::bin_path(),
        initramfs::is_directory(first.mode),
        second.name == initramfs::init_path(),
        initramfs::is_regular(second.mode),
        4 <= second.data.len() <= u32::MAX,
        second.data.take(4) == seq![0x7fu8, 0x45u8, 0x4cu8, 0x46u8],
        module.valid,
        module.start < module.end,
        module.size <= initramfs::MAX_ARCHIVE_SIZE,
    ensures
        initramfs::healthy(initramfs::boot_report(Some(module), archive), archive),
{
    let entries = seq![first, second];
    lemma_request_paths();
    law_names_give_their_first_entry(archive, missing_path());
    assert(entries[0].name.len() == 3);
    assert(entries[1].name.len() == 8);
    assert(missing_path().len() == 7);
    let one = entries.drop_last();
    assert(one =~= seq![first]);
    assert(one.drop_last() =~= Seq::<ArchiveEntry>::empty());
    assert(initramfs::regular_count(one.drop_last()) == 0);
    assert(initramfs::directory_count(one.drop_last()) == 0);
    assert(initramfs::regular_count(one) == 0);
    assert(initramfs::directory_count(one) == 1);
    assert(initramfs::regular_count(entries) == 1);
    assert(initramfs::directory_count(entries) == 1);
    assert(initramfs::last_init(entries) == Some(second.data.len()));
}

proof fn lemma_appended_len(
    archive: Seq<u8>,
    inode: u32,
    name: Seq<u8>,
    mode: u32,
    links: u32,
    data: Seq<u8>,
)
    ensures
        mkinitramfs::appended(archive, inode, name, mode, links, data).len() <= archive.len()
            + name.len() + data.len() + 117,
{
    reveal(mkinitramfs::appended);
    let fields = mkinitramfs::header_fields(inode, mode, links, data.len(), name.len() + 1);
    let header = initramfs::cpio_magic() + mkinitramfs::fields_text(fields);
    let named = archive + header + name.push(0);
    lemma_fields_text(fields);
    bits::lemma_ceil_to(named.len() as int, 4);
    bits::lemma_ceil_to((mkinitramfs::padded_bytes(named) + data).len() as int, 4);
}

/// The archive around the first user program is small enough to boot with, and a kernel that
/// does so passes its own test.
pub proof fn law_own_archive_is_healthy(module: initramfs::BootModule)
    requires
        module.valid,
        module.end - module.start == mkinitramfs::built_archive(user_program::init_image()).len(),
        module.size == module.end - module.start,
    ensures
        module.size <= initramfs::MAX_ARCHIVE_SIZE,
        initramfs::healthy(
            initramfs::boot_report(
                Some(module),
                mkinitramfs::built_archive(user_program::init_image()),
            ),
            mkinitramfs::built_archive(user_program::init_image()),
        ),
{
    let none = Seq::<u8>::empty();
    let image = user_program::init_image();
    let bin = mkinitramfs::appended(none, 1, mkinitramfs::bin_path(), 0x41ed, 2, none);
    let program = mkinitramfs::appended(bin, 2, initramfs::init_path(), 0x81ed, 1, image);
    mkinitramfs::lemma_names();
    user_program::lemma_init_image();
    lemma_appended_len(none, 1, mkinitramfs::bin_path(), 0x41ed, 2, none);
    lemma_appended_len(bin, 2, initramfs::init_path(), 0x81ed, 1, image);
    lemma_appended_len(program, 3, initramfs::cpio_trailer(), 0, 1, none);
    lemma_prefix(program, initramfs::cpio_trailer(), 0, 3, 1, none);
    lemma_built_length(image);
    law_built_archives_are_healthy(module, image);
}

proof fn lemma_built_length(init_elf: Seq<u8>)
    requires
        init_elf.len() <= u32::MAX,
        mkinitramfs::built_archive(init_elf).len() + 3 <= usize::MAX,
    ensures
        mkinitramfs::built_archive(init_elf).len() > 110,
{
    lemma_built_entries(init_elf);
    initramfs::lemma_entry_advances(mkinitramfs::built_archive(init_elf), 0);
}

} // verus!
