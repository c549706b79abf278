use tobacco_kernel::initramfs;
use tobacco_kernel::initramfs::{ArchiveError, ArchiveState, BootModule, PathField};
use tobacco_kernel::mkinitramfs;

fn module(archive: &[u8]) -> BootModule {
    BootModule {
        start: 0x20_0000,
        end: 0x20_0000 + archive.len() as u64,
        valid: true,
        size: archive.len() as u64,
    }
}

fn boot(archive: &[u8]) -> (ArchiveState, initramfs::Snapshot) {
    let mut state = ArchiveState::empty();
    let report = initramfs::init(&mut state, Some(module(archive)), archive);
    (state, report)
}

fn error_of(archive: &[u8]) -> Option<ArchiveError> {
    boot(archive).1.last_error
}

fn entry(name: &str, mode: u32, data: &[u8]) -> Vec<u8> {
    let mut archive = Vec::new();
    mkinitramfs::append_entry(&mut archive, 7, name, mode, 1, data);
    archive
}

fn with_trailer(mut archive: Vec<u8>) -> Vec<u8> {
    mkinitramfs::append_entry(&mut archive, 0, "TRAILER!!!", 0, 1, &[]);
    archive
}

fn sample() -> Vec<u8> {
    mkinitramfs::build_initramfs(b"\x7fELF and more")
}

#[test]
fn entries_are_laid_out_in_newc_format() {
    let archive = entry("bin/init", 0o100755, b"hello");
    let header = [
        "070701", "00000007", "000081ed", "00000000", "00000000", "00000001", "00000000",
        "00000005", "00000000", "00000000", "00000000", "00000000", "00000009", "00000000",
    ]
    .concat();
    assert_eq!(header.len(), 110);
    assert_eq!(&archive[..110], header.as_bytes());
    assert_eq!(&archive[110..119], b"bin/init\0");
    assert_eq!(&archive[119..120], &[0]);
    assert_eq!(&archive[120..125], b"hello");
    assert_eq!(&archive[125..], &[0, 0, 0]);
}

#[test]
fn appended_entries_read_back() {
    let mut archive = entry("etc/motd", 0o100644, b"one two three");
    let second = archive.len();
    mkinitramfs::append_entry(&mut archive, 9, "dev", 0o040755, 2, &[]);
    let first = initramfs::parse_entry(&archive, 0).ok().unwrap();
    assert_eq!(first.name, b"etc/motd");
    assert_eq!(first.data, b"one two three");
    assert_eq!(first.mode, 0o100644);
    assert_eq!(first.next_offset, second);
    assert!(!first.trailer);
    let next = initramfs::parse_entry(&archive, second).ok().unwrap();
    assert_eq!(next.name, b"dev");
    assert_eq!(next.mode, 0o040755);
    assert_eq!(next.next_offset, archive.len());
}

#[test]
fn built_archive_boots_and_gives_the_program_back() {
    let archive = sample();
    let (state, report) = boot(&archive);
    assert!(report.valid && report.initialized && report.module_found);
    assert_eq!(report.entry_count, 2);
    assert_eq!(report.regular_files, 1);
    assert_eq!(report.directories, 1);
    assert_eq!(report.total_file_bytes, 13);
    assert_eq!(report.init_size, 13);
    assert_eq!(report.archive_size, archive.len() as u64);
    assert!(report.last_error.is_none());
    let file = initramfs::find(&state, &archive, "/bin/init").unwrap();
    assert_eq!(file.path, "bin/init");
    assert_eq!(file.data, b"\x7fELF and more");
    assert_eq!(file.mode, 0o100755);
    assert_eq!(initramfs::find(&state, &archive, "bin/init").unwrap().data, file.data);
    assert!(initramfs::find(&state, &archive, "bin").is_some());
    assert!(initramfs::find(&state, &archive, "/missing").is_none());
    assert!(initramfs::find(&state, &archive, "../bin/init").is_none());
    assert!(initramfs::find(&state, &archive, "//bin/init").is_none());
    assert!(initramfs::find(&state, &archive, "").is_none());
    assert!(initramfs::selftest(&state, &archive));
    assert!(initramfs::snapshot(&state) == report);
}

#[test]
fn the_kernels_own_archive_is_healthy() {
    let archive = mkinitramfs::build_initramfs(&mkinitramfs::build_init_elf());
    let (state, report) = boot(&archive);
    assert!(report.valid);
    assert_eq!(report.init_size, 0x2010);
    assert!(initramfs::selftest(&state, &archive));
}

#[test]
fn table_keeps_what_the_entries_say() {
    let archive = sample();
    let (state, _) = boot(&archive);
    let first = initramfs::entry(&state, 0).unwrap();
    assert_eq!(first.path.as_str(), "bin");
    assert!(first.directory && !first.regular);
    assert_eq!(first.size, 0);
    let second = initramfs::entry(&state, 1).unwrap();
    assert_eq!(second.path.as_str(), "bin/init");
    assert!(second.regular && !second.directory);
    assert_eq!(second.mode, 0o100755);
    assert_eq!(second.size, 13);
    assert!(initramfs::entry(&state, 2).is_none());
}

#[test]
fn missing_and_odd_modules_are_told_apart() {
    let archive = sample();
    let mut state = ArchiveState::empty();
    let report = initramfs::init(&mut state, None, &[]);
    assert!(report.last_error == Some(ArchiveError::MissingModule));
    assert!(!report.module_found && !report.valid);
    let odd = BootModule { valid: false, ..module(&archive) };
    let report = initramfs::init(&mut state, Some(odd), &archive);
    assert!(report.last_error == Some(ArchiveError::InvalidModule));
    assert!(report.module_found);
    let large = BootModule { size: 32 * 1024 * 1024 + 1, ..module(&archive) };
    let report = initramfs::init(&mut state, Some(large), &archive);
    assert!(report.last_error == Some(ArchiveError::ArchiveTooLarge));
    assert_eq!(report.entry_count, 0);
    assert!(initramfs::find(&state, &archive, "/bin/init").is_none());
}

#[test]
fn malformed_headers_are_told_apart() {
    let good = sample();
    assert!(error_of(&good[..109]) == Some(ArchiveError::TruncatedHeader));
    let mut bad = good.clone();
    bad[5] = b'2';
    assert!(error_of(&bad) == Some(ArchiveError::InvalidMagic));
    let mut bad = good.clone();
    bad[40] = b'g';
    assert!(error_of(&bad) == Some(ArchiveError::InvalidHexField));
    let mut bad = good.clone();
    bad[109] = b'1';
    assert!(error_of(&bad) == Some(ArchiveError::ChecksumUnsupported));
    let mut bad = good.clone();
    bad[94..102].copy_from_slice(b"00000000");
    assert!(error_of(&bad) == Some(ArchiveError::InvalidNameSize));
    let mut bad = good.clone();
    bad[94..102].copy_from_slice(b"00000062");
    assert!(error_of(&bad) == Some(ArchiveError::NameTooLong));
    let mut bad = good.clone();
    bad[113] = b'x';
    assert!(error_of(&bad) == Some(ArchiveError::NameMissingTerminator));
    let mut bad = good.clone();
    bad[54..62].copy_from_slice(b"0000ffff");
    assert!(error_of(&bad) == Some(ArchiveError::EntryOutsideArchive));
    assert!(error_of(&good[..113]) == Some(ArchiveError::EntryOutsideArchive));
}

#[test]
fn malformed_archives_are_told_apart() {
    assert!(error_of(&entry("bin/init", 0o100755, b"x")) == Some(ArchiveError::MissingTrailer));
    assert!(error_of(&[]) == Some(ArchiveError::MissingTrailer));
    let mut trailing = sample();
    trailing.push(0);
    assert!(error_of(&trailing).is_none());
    trailing.push(1);
    assert!(error_of(&trailing) == Some(ArchiveError::TrailingGarbage));
    let no_init = with_trailer(entry("bin/other", 0o100755, b"x"));
    assert!(error_of(&no_init) == Some(ArchiveError::MissingInit));
    let folder = with_trailer(entry("bin/init", 0o040755, b""));
    assert!(error_of(&folder) == Some(ArchiveError::InitNotRegular));
    let stuffed = entry("TRAILER!!!", 0, b"data");
    assert!(error_of(&stuffed) == Some(ArchiveError::InvalidTrailer));
    let mut many = Vec::new();
    for index in 0..33u32 {
        mkinitramfs::append_entry(&mut many, index, "same", 0o100644, 1, b"");
    }
    let (_, report) = boot(&with_trailer(many));
    assert!(report.last_error == Some(ArchiveError::TooManyEntries));
    assert_eq!(report.entry_count, 32);
    for name in ["../x", "a//b", "/abs", "a/", ".", "a/./b", "sp ace", ""] {
        let odd = with_trailer(entry(name, 0o100644, b""));
        assert!(error_of(&odd) == Some(ArchiveError::InvalidPath));
    }
}

#[test]
fn the_first_of_equal_names_is_found() {
    let mut archive = entry("bin/init", 0o100755, b"first");
    mkinitramfs::append_entry(&mut archive, 2, "bin/init", 0o100755, 1, b"second one");
    let archive = with_trailer(archive);
    let (state, report) = boot(&archive);
    assert!(report.valid);
    assert_eq!(report.init_size, 10);
    assert_eq!(initramfs::find(&state, &archive, "/bin/init").unwrap().data, b"first");
    assert!(!initramfs::selftest(&state, &archive));
}

#[test]
fn hexadecimal_fields_take_both_cases() {
    assert!(initramfs::parse_hex_u32(b"0000001f") == Ok(31));
    assert!(initramfs::parse_hex_u32(b"DEADbeef") == Ok(0xdead_beef));
    assert!(initramfs::parse_hex_u32(b"ffffffff") == Ok(u32::MAX));
    assert!(initramfs::parse_hex_u32(b"0000000") == Err(ArchiveError::InvalidHexField));
    assert!(initramfs::parse_hex_u32(b"0000000g") == Err(ArchiveError::InvalidHexField));
}

#[test]
fn path_fields_hold_plain_paths() {
    assert_eq!(PathField::from_bytes(b"usr/lib-2.0/a_b").ok().unwrap().as_str(), "usr/lib-2.0/a_b");
    assert_eq!(PathField::empty().as_str(), "");
    assert!(PathField::from_bytes(&[b'a'; 97]).err() == Some(ArchiveError::NameTooLong));
    assert!(PathField::from_bytes(&[b'a'; 96]).is_ok());
    assert!(PathField::from_bytes(b"").err() == Some(ArchiveError::InvalidPath));
    assert!(PathField::from_bytes(b"a/../b").err() == Some(ArchiveError::InvalidPath));
    assert!(PathField::from_bytes(b"caf\xc3\xa9").err() == Some(ArchiveError::InvalidPath));
    assert!(initramfs::valid_path(b"..."));
    assert!(!initramfs::valid_path(b".."));
    assert_eq!(initramfs::normalize_requested_path(b"/a/b"), Some(&b"a/b"[..]));
    assert_eq!(initramfs::normalize_requested_path(b"/"), None);
}

#[test]
fn archive_errors_have_names() {
    assert_eq!(
        initramfs::error_name(ArchiveError::MissingModule),
        "Multiboot2 initramfs module is missing"
    );
    assert_eq!(
        initramfs::error_name(ArchiveError::InitNotRegular),
        "/bin/init is not a regular file"
    );
}
