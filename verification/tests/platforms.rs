use hokori::bytes::ByteOrder;
use hokori::sys::fallback::{file_kind, listed_entry, resolve_path, FdRegistry};
use hokori::sys::linux::{
    d_type_to_file_type, getdents_headers_fit, open_request, openat2_outcome, parse_getdents_buf,
    statx_entry, OpenStep,
};
use hokori::sys::macos::{obj_type_to_file_type, parse_bulk_buffer, parse_bulk_record};
use hokori::sys::{
    dot_name, linux, macos, mode_to_file_type, openat_outcome, stat_outcome, FileType, IoError, RawDirEntry,
    SysError,
};

fn io_error(code: i32) -> IoError {
    IoError { code: Some(code), text: format!("Os {{ code: {} }}", code) }
}

fn code_of(error: &SysError) -> Option<i32> {
    match error {
        SysError::Io(io) => io.code,
        _ => None,
    }
}

fn put(buf: &mut Vec<u8>, value: u64, width: usize, order: ByteOrder) {
    for i in 0..width {
        let shift = match order {
            ByteOrder::Little => 8 * i,
            ByteOrder::Big => 8 * (width - 1 - i),
        };
        buf.push((value >> shift) as u8);
    }
}

fn dirent(ino: u64, kind: u8, name: &[u8], padding: usize, order: ByteOrder) -> Vec<u8> {
    let mut rec = Vec::new();
    put(&mut rec, ino, 8, order);
    put(&mut rec, 77, 8, order);
    put(&mut rec, (19 + name.len() + padding) as u64, 2, order);
    rec.push(kind);
    rec.extend_from_slice(name);
    for _ in 0..padding {
        rec.push(0);
    }
    rec
}

fn names(entries: &[RawDirEntry]) -> Vec<Vec<u8>> {
    entries.iter().map(|e| e.name.clone()).collect()
}

#[test]
fn getdents_lists_entries_without_dots() {
    for order in [ByteOrder::Little, ByteOrder::Big] {
        let mut buf = Vec::new();
        buf.extend(dirent(1, 4, b".", 5, order));
        buf.extend(dirent(2, 4, b"..", 4, order));
        buf.extend(dirent(0x0102_0304_0506_0708, 8, b"file", 3, order));
        buf.extend(dirent(4, 4, b"sub", 2, order));
        buf.extend(dirent(5, 10, b"link", 1, order));
        buf.extend(dirent(6, 0, b"what", 2, order));
        buf.extend(dirent(7, 6, b"pipe", 2, order));
        let n = buf.len();
        buf.extend_from_slice(&[9; 64]);
        assert!(getdents_headers_fit(&buf, n, order));
        let entries = parse_getdents_buf(&buf, n, order);
        let expected: Vec<Vec<u8>> =
            vec![b"file".to_vec(), b"sub".to_vec(), b"link".to_vec(), b"what".to_vec(), b"pipe".to_vec()];
        assert_eq!(names(&entries), expected);
        assert_eq!(entries[0].ino, 0x0102_0304_0506_0708);
        assert_eq!(entries[0].file_type, FileType::File);
        assert_eq!(entries[1].file_type, FileType::Directory);
        assert_eq!(entries[2].file_type, FileType::Symlink);
        assert_eq!(entries[3].file_type, FileType::Unknown);
        assert_eq!(entries[4].file_type, FileType::Other);
        assert_eq!(entries[0].size, None);
        assert_eq!(entries[0].alloc_size, None);
        assert_eq!(entries[0].dev, None);
        assert_eq!(entries[0].nlink, None);
    }
}

#[test]
fn getdents_stops_where_no_record_fits() {
    let order = ByteOrder::Little;
    let whole = dirent(1, 8, b"a", 1, order);
    let mut cut = whole.clone();
    cut.extend(dirent(2, 8, b"bcdef", 1, order));
    let short = cut.len() - 3;
    assert_eq!(names(&parse_getdents_buf(&cut, short, order)), vec![b"a".to_vec()]);
    let mut zero = whole.clone();
    zero.extend_from_slice(&[0; 40]);
    assert_eq!(names(&parse_getdents_buf(&zero, zero.len(), order)), vec![b"a".to_vec()]);
    assert!(parse_getdents_buf(&whole, 0, order).is_empty());
    assert!(parse_getdents_buf(&whole, 18, order).is_empty());
}

#[test]
fn getdents_name_without_nul_fills_the_record() {
    let order = ByteOrder::Little;
    let buf = dirent(1, 8, b"abc", 0, order);
    assert_eq!(names(&parse_getdents_buf(&buf, buf.len(), order)), vec![b"abc".to_vec()]);
}

#[test]
fn records_shorter_than_their_header_are_noticed() {
    let order = ByteOrder::Little;
    let mut buf = dirent(1, 8, b"abc", 1, order);
    buf[16] = 10;
    assert!(!getdents_headers_fit(&buf, buf.len(), order));
    assert!(getdents_headers_fit(&buf, 5, order));
}

#[test]
fn linux_rounds() {
    let order = ByteOrder::Little;
    let buf = dirent(1, 8, b"abc", 1, order);
    match linux::read_dir_raw(&buf, Ok(buf.len()), order) {
        Ok(Some(entries)) => assert_eq!(names(&entries), vec![b"abc".to_vec()]),
        _ => panic!("expected entries"),
    }
    assert!(matches!(linux::read_dir_raw(&buf, Ok(0), order), Ok(None)));
    match linux::read_dir_raw(&buf, Err(io_error(5)), order) {
        Err(e) => assert_eq!(code_of(&e), Some(5)),
        Ok(_) => panic!("expected an error"),
    }
}

#[test]
fn two_rounds_list_what_one_would() {
    let order = ByteOrder::Little;
    let mut first = dirent(1, 4, b".", 1, order);
    first.extend(dirent(2, 8, b"a", 2, order));
    let second = dirent(3, 8, b"b", 3, order);
    let mut whole = first.clone();
    whole.extend_from_slice(&second);
    let mut listed = names(&parse_getdents_buf(&first, first.len(), order));
    listed.extend(names(&parse_getdents_buf(&second, second.len(), order)));
    assert_eq!(names(&parse_getdents_buf(&whole, whole.len(), order)), listed);
    assert_eq!(listed, vec![b"a".to_vec(), b"b".to_vec()]);
}

#[test]
fn linux_types_and_metadata() {
    assert_eq!(d_type_to_file_type(8), FileType::File);
    assert_eq!(d_type_to_file_type(1), FileType::Other);
    assert_eq!(mode_to_file_type(0o100644), FileType::File);
    assert_eq!(mode_to_file_type(0o040755), FileType::Directory);
    assert_eq!(mode_to_file_type(0o120777), FileType::Symlink);
    assert_eq!(mode_to_file_type(0o010644), FileType::Other);
    let meta = statx_entry(11, 8, 1, 1000, 4, 0o100644, 2);
    assert_eq!(meta.ino, 11);
    assert_eq!(meta.dev, 0x8_0000_0001);
    assert_eq!(meta.size, 1000);
    assert_eq!(meta.blocks, 4);
    assert_eq!(meta.alloc_size, 2048);
    assert_eq!(meta.file_type, FileType::File);
    assert_eq!(meta.nlink, 2);
}

#[test]
fn opening_on_linux() {
    let (fd, how) = open_request(None, -100, 7);
    assert_eq!(fd, -100);
    assert_eq!((how.flags, how.mode, how.resolve), (7, 0, 0));
    let (fd, how) = open_request(Some(3), -100, 7);
    assert_eq!(fd, 3);
    assert_eq!(how.resolve, 8);
    assert!(matches!(openat2_outcome(5, io_error(38), 38), OpenStep::Opened(5)));
    assert!(matches!(openat2_outcome(-1, io_error(38), 38), OpenStep::UseOpenat));
    match openat2_outcome(-1, io_error(2), 38) {
        OpenStep::Failed(e) => assert_eq!(code_of(&e), Some(2)),
        _ => panic!("expected a failure"),
    }
    assert!(matches!(openat_outcome(4, io_error(2)), Ok(4)));
    match openat_outcome(-1, io_error(2)) {
        Err(e) => assert_eq!(code_of(&e), Some(2)),
        Ok(_) => panic!("expected an error"),
    }
}

const NAME: u32 = 0x0000_0001;
const OBJTYPE: u32 = 0x0000_0008;
const FILEID: u32 = 0x0200_0000;
const ERROR: u32 = 0x2000_0000;
const ALLOCSIZE: u32 = 0x0000_0004;
const DEVID: u32 = 0x0000_0002;
const LINKCOUNT: u32 = 0x0000_0001;
const DATALENGTH: u32 = 0x0000_0200;

fn bulk(attrs: &[(u64, usize)], common: u32, file: u32, name: &[u8], order: ByteOrder) -> Vec<u8> {
    let mut fixed = Vec::new();
    for (value, width) in attrs {
        put(&mut fixed, *value, *width, order);
    }
    let len = 24 + 8 + fixed.len() + name.len();
    let mut rec = Vec::new();
    put(&mut rec, len as u64, 4, order);
    put(&mut rec, common as u64, 4, order);
    put(&mut rec, 0, 4, order);
    put(&mut rec, 0, 4, order);
    put(&mut rec, file as u64, 4, order);
    put(&mut rec, 0, 4, order);
    put(&mut rec, (8 + fixed.len()) as u64, 4, order);
    put(&mut rec, name.len() as u64, 4, order);
    rec.extend(fixed);
    rec.extend_from_slice(name);
    rec
}

#[test]
fn bulk_record_of_a_file() {
    for order in [ByteOrder::Little, ByteOrder::Big] {
        let rec = bulk(
            &[(0, 4), (1, 4), (42, 8), (8192, 8)],
            NAME | ERROR | OBJTYPE | FILEID,
            ALLOCSIZE,
            b"data.bin\0",
            order,
        );
        let entry = parse_bulk_record(&rec, order).unwrap();
        assert_eq!(entry.name, b"data.bin".to_vec());
        assert_eq!(entry.file_type, FileType::File);
        assert_eq!(entry.ino, 42);
        assert_eq!(entry.size, Some(8192));
        assert_eq!((entry.alloc_size, entry.dev, entry.nlink), (None, None, None));
    }
}

#[test]
fn bulk_record_with_all_attributes() {
    for order in [ByteOrder::Little, ByteOrder::Big] {
        let attrs = [(7, 4), (1, 4), (42, 8), (3, 4), (8192, 8), (5000, 8)];
        let common = NAME | DEVID | OBJTYPE | FILEID;
        let rec = bulk(&attrs, common, LINKCOUNT | ALLOCSIZE | DATALENGTH, b"f\0", order);
        let entry = parse_bulk_record(&rec, order).unwrap();
        assert_eq!((entry.size, entry.alloc_size), (Some(5000), Some(8192)));
        assert_eq!((entry.dev, entry.nlink, entry.ino), (Some(7), Some(3), 42));
        let length_only = [(0xffff_fffe, 4), (1, 4), (42, 8), (5000, 8)];
        let rec = bulk(&length_only, common, DATALENGTH, b"f\0", order);
        let entry = parse_bulk_record(&rec, order).unwrap();
        assert_eq!((entry.size, entry.alloc_size), (Some(5000), None));
        assert_eq!((entry.dev, entry.nlink), (Some(0xffff_ffff_ffff_fffe), None));
        let other = [(7, 4), (9, 4), (42, 8), (3, 4), (8192, 8), (5000, 8)];
        let rec = bulk(&other, common, LINKCOUNT | ALLOCSIZE | DATALENGTH, b"p\0", order);
        let entry = parse_bulk_record(&rec, order).unwrap();
        assert_eq!((entry.size, entry.alloc_size, entry.nlink), (None, None, None));
        assert_eq!(entry.dev, Some(7));
    }
}

#[test]
fn bulk_records_that_describe_nothing() {
    let order = ByteOrder::Little;
    let failed = bulk(&[(13, 4)], NAME | ERROR, 0, b"x\0", order);
    assert!(parse_bulk_record(&failed, order).is_none());
    let nameless = bulk(&[(1, 4)], OBJTYPE, 0, b"x\0", order);
    assert!(parse_bulk_record(&nameless, order).is_none());
    let dot = bulk(&[(2, 4)], NAME | OBJTYPE, 0, b"..\0", order);
    assert!(parse_bulk_record(&dot, order).is_none());
    let fine = bulk(&[(2, 4)], NAME | OBJTYPE, 0, b"d\0", order);
    assert!(parse_bulk_record(&fine[..23], order).is_none());
    assert!(parse_bulk_record(&fine[..fine.len() - 1], order).is_none());
    let mut negative = fine.clone();
    negative[24..28].copy_from_slice(&[0xe0, 0xff, 0xff, 0xff]);
    assert!(parse_bulk_record(&negative, order).is_none());
}

#[test]
fn bulk_record_without_type() {
    let order = ByteOrder::Little;
    let rec = bulk(&[], NAME, 0, b"odd", order);
    let entry = parse_bulk_record(&rec, order).unwrap();
    assert_eq!(entry.name, b"odd".to_vec());
    assert_eq!(entry.file_type, FileType::Unknown);
    assert_eq!(entry.ino, 0);
    assert_eq!(entry.size, None);
    assert_eq!(obj_type_to_file_type(1), FileType::File);
    assert_eq!(obj_type_to_file_type(2), FileType::Directory);
    assert_eq!(obj_type_to_file_type(5), FileType::Symlink);
    assert_eq!(obj_type_to_file_type(9), FileType::Other);
}

#[test]
fn bulk_buffers() {
    let order = ByteOrder::Little;
    let mut buf = bulk(&[(2, 4)], NAME | OBJTYPE, 0, b"dir\0", order);
    buf.extend(bulk(&[(5, 4)], NAME | ERROR, 0, b"bad\0", order));
    buf.extend(bulk(&[(5, 4)], NAME | OBJTYPE, 0, b"link\0", order));
    let three = parse_bulk_buffer(&buf, 3, order);
    assert_eq!(names(&three), vec![b"dir".to_vec(), b"link".to_vec()]);
    assert_eq!(parse_bulk_buffer(&buf, 1, order).len(), 1);
    assert_eq!(parse_bulk_buffer(&buf, 9, order).len(), 2);
    assert_eq!(parse_bulk_buffer(&buf[..buf.len() - 1], 3, order).len(), 1);
    assert!(matches!(macos::read_dir_raw(&buf, 0, io_error(5), order), Ok(None)));
    match macos::read_dir_raw(&buf, 3, io_error(5), order) {
        Ok(Some(entries)) => assert_eq!(entries.len(), 2),
        _ => panic!("expected entries"),
    }
    match macos::read_dir_raw(&buf, -1, io_error(5), order) {
        Err(e) => assert_eq!(code_of(&e), Some(5)),
        Ok(_) => panic!("expected an error"),
    }
}

#[test]
fn registry_round_trip() {
    let mut registry = FdRegistry::new();
    let fd = match registry.open_dir(b"/tmp".to_vec(), Ok(true)) {
        Ok(fd) => fd,
        Err(_) => panic!("expected a descriptor"),
    };
    assert_eq!(fd, 1000);
    assert_eq!(registry.dir_path(fd).ok(), Some(b"/tmp".to_vec()));
    assert_eq!(registry.resolve(Some(fd), b"x").ok(), Some(b"/tmp/x".to_vec()));
    assert_eq!(registry.resolve(Some(fd), b"/x").ok(), Some(b"/x".to_vec()));
    assert_eq!(registry.resolve(None, b"x").ok(), Some(b"x".to_vec()));
    assert_eq!(registry.entry_path(fd, b".").ok(), Some(b"/tmp".to_vec()));
    assert_eq!(registry.entry_path(fd, b"y").ok(), Some(b"/tmp/y".to_vec()));
    registry.close_fd(fd);
    match registry.dir_path(fd) {
        Err(SysError::Io(io)) => {
            assert_eq!(io.code, None);
            assert_eq!(io.text, "Custom { kind: InvalidInput, error: \"invalid fd\" }");
        },
        _ => panic!("expected an error"),
    }
    assert!(registry.resolve(Some(fd), b"x").is_err());
    assert!(registry.entry_path(fd, b"x").is_err());
    assert!(matches!(registry.open_dir(b"/".to_vec(), Ok(true)), Ok(1001)));
}

#[test]
fn failed_stats_give_their_error() {
    assert!(stat_outcome(0, io_error(2)).is_none());
    match stat_outcome(-1, io_error(2)) {
        Some(e) => assert_eq!(code_of(&e), Some(2)),
        None => panic!("expected an error"),
    }
}

#[test]
fn numbers_are_not_reused() {
    let mut registry = FdRegistry::new();
    let mut given = Vec::new();
    for round in 0..3 {
        let opened = registry.open_dir(b"/d".to_vec(), Ok(true));
        given.push(opened.ok().unwrap());
        assert!(registry.open_dir(b"/f".to_vec(), Ok(false)).is_err());
        assert!(registry.open_dir(b"/x".to_vec(), Err(io_error(2))).is_err());
        registry.close_fd(given[round]);
    }
    assert_eq!(given, vec![1000, 1001, 1002]);
}

#[test]
fn registry_refuses_what_is_no_directory() {
    let mut registry = FdRegistry::new();
    match registry.open_dir(b"/etc/hosts".to_vec(), Ok(false)) {
        Err(SysError::Io(io)) => {
            assert_eq!(io.text, "Custom { kind: NotADirectory, error: \"not a directory\" }")
        },
        _ => panic!("expected an error"),
    }
    match registry.open_dir(b"/nowhere".to_vec(), Err(io_error(2))) {
        Err(e) => assert_eq!(code_of(&e), Some(2)),
        Ok(_) => panic!("expected an error"),
    }
    assert_eq!(registry.next_fd, 1000);
}

#[test]
fn fallback_entries() {
    assert_eq!(resolve_path(b"/a/", b"b"), b"/a/b".to_vec());
    assert_eq!(file_kind(true, false, false), FileType::Directory);
    assert_eq!(file_kind(false, true, false), FileType::File);
    assert_eq!(file_kind(false, false, true), FileType::Symlink);
    assert_eq!(file_kind(false, false, false), FileType::Other);
    let entry = listed_entry(b"f".to_vec(), Some(FileType::File), Some((9, 100))).unwrap();
    assert_eq!((entry.ino, entry.size), (9, Some(100)));
    let bare = listed_entry(b"f".to_vec(), None, None).unwrap();
    assert_eq!(bare.file_type, FileType::Unknown);
    assert_eq!((bare.ino, bare.size), (0, None));
    assert!(listed_entry(b".".to_vec(), None, None).is_none());
    assert!(dot_name(b".."));
    assert!(!dot_name(b"..."));
}

#[test]
fn system_errors_from_io_errors() {
    let error: SysError = io_error(7).into();
    assert_eq!(code_of(&error), Some(7));
}
