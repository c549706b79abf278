//! Building the archive that the kernel boots with.
use crate::{initramfs, text, user_program};
use vstd::prelude::*;

verus! {

/// The character for a hexadecimal digit, in lower case.
pub open spec fn hex_char(digit: nat) -> u8 {
    if digit < 10 {
        (0x30 + digit) as u8
    } else {
        (0x61 + digit - 10) as u8
    }
}

/// `width` hexadecimal digits of `value`, most significant first.
pub open spec fn hex_text(value: nat, width: nat) -> Seq<u8>
    decreases width,
{
    if width == 0 {
        Seq::empty()
    } else {
        hex_text(value / 16, (width - 1) as nat).push(hex_char(value % 16))
    }
}

/// Eight digits for each of `fields`, one field behind the other.
pub open spec fn fields_text(fields: Seq<u32>) -> Seq<u8>
    decreases fields.len(),
{
    if fields.len() == 0 {
        Seq::empty()
    } else {
        fields_text(fields.drop_last()) + hex_text(fields.last() as nat, 8)
    }
}

/// The fields of an entry's header: serial number, mode, owner, group, links, time, size of the
/// data, four device numbers, size of the name with its terminator, and checksum.
pub open spec fn header_fields(
    inode: u32,
    mode: u32,
    links: u32,
    file_size: nat,
    name_size: nat,
) -> Seq<u32> {
    seq![
        inode,
        mode,
        0u32,
        0u32,
        links,
        0u32,
        file_size as u32,
        0u32,
        0u32,
        0u32,
        0u32,
        name_size as u32,
        0u32,
    ]
}

/// `bytes` with zeros behind them, up to a multiple of four.
pub open spec fn padded_bytes(bytes: Seq<u8>) -> Seq<u8> {
    bytes + Seq::new((initramfs::padded(bytes.len() as int) - bytes.len()) as nat, |i: int| 0u8)
}

/// `archive` with one more entry behind it.
#[verifier::opaque]
pub open spec fn appended(
    archive: Seq<u8>,
    inode: u32,
    name: Seq<u8>,
    mode: u32,
    links: u32,
    data: Seq<u8>,
) -> Seq<u8> {
    let header = initramfs::cpio_magic() + fields_text(
        header_fields(inode, mode, links, data.len(), name.len() + 1),
    );
    padded_bytes(padded_bytes(archive + header + name.push(0)) + data)
}

/// An archive with a directory `bin` and a program `bin/init`.
pub open spec fn built_archive(init_elf: Seq<u8>) -> Seq<u8> {
    let none = Seq::<u8>::empty();
    let bin = appended(none, 1, vstd::utf8::encode_utf8("bin"@), 0x41ed, 2, none);
    let program = appended(bin, 2, vstd::utf8::encode_utf8("bin/init"@), 0x81ed, 1, init_elf);
    appended(program, 3, vstd::utf8::encode_utf8("TRAILER!!!"@), 0, 1, none)
}

fn append_hex(bytes: &mut Vec<u8>, value: u32)
    ensures
        final(bytes)@ == old(bytes)@ + hex_text(value as nat, 8),
{
    let ghost before = bytes@;
    let mut digits: [u8; 8] = [0; 8];
    let mut rest: u32 = value;
    let mut left: usize = 8;
    let ghost all = hex_text(value as nat, 8);
    proof {
        lemma_hex_text_len(value as nat, 8);
        assert(all.take(8) =~= all);
    }
    while left > 0
        invariant
            left <= 8,
            all.len() == 8,
            all.take(left as int) == hex_text(rest as nat, left as nat),
            forall|i: int| left <= i < 8 ==> digits@[i] == all[i],
        decreases left,
    {
        proof {
            lemma_hex_text_len(rest as nat / 16, (left - 1) as nat);
            let shorter = hex_text(rest as nat / 16, (left - 1) as nat);
            assert(all.take(left as int).last() == hex_char(rest as nat % 16));
            assert(all.take(left - 1) =~= all.take(left as int).drop_last());
            assert(all.take(left as int).drop_last() =~= shorter);
        }
        let digit: u8 = (rest % 16) as u8;
        let position: usize = left - 1;
        digits[position] = if digit < 10 {
            0x30 + digit
        } else {
            0x61 + (digit - 10)
        };
        assert(digits@[position as int] == all[position as int]);
        rest = rest / 16;
        left = position;
    }
    assert(digits@ =~= all);
    text::append_bytes(bytes, &digits);
}

fn append_fields(bytes: &mut Vec<u8>, fields: &[u32])
    ensures
        final(bytes)@ == old(bytes)@ + fields_text(fields@),
{
    let ghost before = bytes@;
    let mut index: usize = 0;
    assert(before + fields_text(fields@.take(0)) =~= before);
    while index < fields.len()
        invariant
            index <= fields@.len(),
            bytes@ == before + fields_text(fields@.take(index as int)),
        decreases fields@.len() - index,
    {
        append_hex(bytes, fields[index]);
        proof {
            let done = fields@.take(index as int);
            let more = fields@.take(index + 1);
            assert(more.drop_last() =~= done);
            assert(bytes@ =~= before + fields_text(more));
        }
        index = index + 1;
    }
    assert(fields@.take(index as int) =~= fields@);
}

/// Appends zeros up to a multiple of four.
pub fn pad_to_four(bytes: &mut Vec<u8>)
    ensures
        final(bytes)@ == padded_bytes(old(bytes)@),
{
    let ghost before = bytes@;
    let ghost target = initramfs::padded(before.len() as int);
    while bytes.len() % 4 != 0
        invariant
            target == initramfs::padded(before.len() as int),
            before.len() <= bytes@.len() <= target,
            bytes@ == before + Seq::new((bytes@.len() - before.len()) as nat, |i: int| 0u8),
        decreases target - bytes@.len(),
    {
        bytes.push(0);
        assert(bytes@ =~= before + Seq::new((bytes@.len() - before.len()) as nat, |i: int| 0u8));
    }
}

/// Appends one entry to an archive.
pub fn append_entry(
    archive: &mut Vec<u8>,
    inode: u32,
    name: &str,
    mode: u32,
    links: u32,
    data: &[u8],
)
    requires
        vstd::utf8::encode_utf8(name@).len() < u32::MAX,
        data@.len() <= u32::MAX,
    ensures
        final(archive)@ == appended(
            old(archive)@,
            inode,
            vstd::utf8::encode_utf8(name@),
            mode,
            links,
            data@,
        ),
{
    let name_bytes: &[u8] = name.as_bytes();
    let name_size: u32 = name_bytes.len() as u32 + 1;
    let file_size: u32 = data.len() as u32;
    let magic: [u8; 6] = [0x30, 0x37, 0x30, 0x37, 0x30, 0x31];
    let fields: [u32; 13] = [
        inode,
        mode,
        0,
        0,
        links,
        0,
        file_size,
        0,
        0,
        0,
        0,
        name_size,
        0,
    ];
    reveal(appended);
    let ghost before = archive@;
    let ghost name_view = vstd::utf8::encode_utf8(name@);
    let ghost header = initramfs::cpio_magic() + fields_text(
        header_fields(inode, mode, links, data@.len(), name_view.len() + 1),
    );
    assert(magic@ =~= initramfs::cpio_magic());
    assert(fields@ =~= header_fields(inode, mode, links, data@.len(), name_view.len() + 1));
    text::append_bytes(archive, &magic);
    append_fields(archive, &fields);
    text::append_bytes(archive, name_bytes);
    archive.push(0);
    assert(archive@ =~= before + header + name_view.push(0));
    pad_to_four(archive);
    text::append_bytes(archive, data);
    pad_to_four(archive);
}

/// The image of the first user program.
pub fn build_init_elf() -> (image: Vec<u8>)
    ensures
        image@ == user_program::init_image(),
{
    let built: [u8; user_program::INIT_ELF_SIZE] = user_program::build_init_elf();
    let mut image: Vec<u8> = Vec::new();
    text::append_bytes(&mut image, &built);
    assert(image@ =~= built@);
    image
}

/// An archive with a directory `bin` and the program `bin/init`.
pub fn build_initramfs(init_elf: &[u8]) -> (archive: Vec<u8>)
    requires
        init_elf@.len() <= u32::MAX,
    ensures
        archive@ == built_archive(init_elf@),
{
    let mut archive: Vec<u8> = Vec::new();
    let empty: [u8; 0] = [];
    assert(empty@ =~= Seq::<u8>::empty());
    proof {
        lemma_names();
    }
    append_entry(&mut archive, 1, "bin", 0x41ed, 2, &empty);
    append_entry(&mut archive, 2, "bin/init", 0x81ed, 1, init_elf);
    append_entry(&mut archive, 3, "TRAILER!!!", 0, 1, &empty);
    archive
}

proof fn lemma_hex_text_len(value: nat, width: nat)
    ensures
        hex_text(value, width).len() == width,
    decreases width,
{
    if width > 0 {
        lemma_hex_text_len(value / 16, (width - 1) as nat);
    }
}

/// `bin`, the directory of the archive.
pub open spec fn bin_path() -> Seq<u8> {
    seq![0x62u8, 0x69u8, 0x6eu8]
}

/// The bytes of the names in the archive.
pub proof fn lemma_names()
    ensures
        vstd::utf8::encode_utf8("bin"@) == bin_path(),
        vstd::utf8::encode_utf8("bin/init"@) == initramfs::init_path(),
        vstd::utf8::encode_utf8("TRAILER!!!"@) == initramfs::cpio_trailer(),
{
    reveal_strlit("bin");
    reveal_strlit("bin/init");
    reveal_strlit("TRAILER!!!");
    vstd::utf8::is_ascii_chars_encode_utf8("bin"@);
    vstd::utf8::is_ascii_chars_encode_utf8("bin/init"@);
    vstd::utf8::is_ascii_chars_encode_utf8("TRAILER!!!"@);
    assert(vstd::utf8::encode_utf8("bin"@) =~= bin_path());
    assert(vstd::utf8::encode_utf8("bin/init"@) =~= initramfs::init_path());
    assert(vstd::utf8::encode_utf8("TRAILER!!!"@) =~= initramfs::cpio_trailer());
}

} // verus!
