//! Linux: `getdents64` listings, `openat2` requests and `statx` results.
use crate::bytes::{before, copy_bytes, find_byte, read_uint, uint_at, ByteOrder};
use crate::seqs::lemma_filter_push;
use crate::sys::{
    dot_name, entry_metadata, is_dot_name, listing, mode_kind, mode_to_file_type, EntryMetadata,
    FileType, IoError, RawDirEntry, RawEntry, SysError, BLOCK_SIZE,
};
use vstd::prelude::*;

verus! {

/// The size of the buffer that a worker reads directory listings into.
pub const GETDENTS_BUF_SIZE: usize = 262144;

pub const DT_UNKNOWN: u8 = 0;

pub const DT_DIR: u8 = 4;

pub const DT_REG: u8 = 8;

pub const DT_LNK: u8 = 10;

/// The bytes of a `linux_dirent64` record that stand before its name: the
/// inode number (8), the offset (8), the record length (2) and the type (1).
pub const DIRENT_HEADER: usize = 19;

/// The kind of file that a `d_type` byte stands for.
pub open spec fn d_type_kind(d_type: u8) -> FileType {
    if d_type == DT_REG {
        FileType::File
    } else if d_type == DT_DIR {
        FileType::Directory
    } else if d_type == DT_LNK {
        FileType::Symlink
    } else if d_type == DT_UNKNOWN {
        FileType::Unknown
    } else {
        FileType::Other
    }
}

pub fn d_type_to_file_type(d_type: u8) -> (kind: FileType)
    ensures
        kind == d_type_kind(d_type),
{
    if d_type == DT_REG {
        FileType::File
    } else if d_type == DT_DIR {
        FileType::Directory
    } else if d_type == DT_LNK {
        FileType::Symlink
    } else if d_type == DT_UNKNOWN {
        FileType::Unknown
    } else {
        FileType::Other
    }
}

/// The length that the record at `off` gives itself.
pub open spec fn record_len(data: Seq<u8>, off: int, order: ByteOrder) -> int {
    uint_at(data, off + 16, 2, order) as int
}

/// Whether a record starts at `off`: its header fits, its length is not zero
/// and it ends within the data.
pub open spec fn record_at(data: Seq<u8>, off: int, order: ByteOrder) -> bool {
    &&& 0 <= off
    &&& off + DIRENT_HEADER <= data.len()
    &&& record_len(data, off, order) > 0
    &&& off + record_len(data, off, order) <= data.len()
}

/// The entry that the record at `off` describes. The name ends at its first
/// NUL byte.
pub open spec fn record_entry(data: Seq<u8>, off: int, order: ByteOrder) -> RawEntry {
    RawEntry {
        name: before(
            data.subrange(off + DIRENT_HEADER, off + record_len(data, off, order)),
            0,
        ),
        file_type: d_type_kind(data[off + 18]),
        ino: uint_at(data, off, 8, order) as u64,
        size: None,
        alloc_size: None,
        dev: None,
        nlink: None,
    }
}

/// The records of `data` from `off` on, up to the first place where no record
/// starts.
pub open spec fn records(data: Seq<u8>, off: int, order: ByteOrder) -> Seq<RawEntry>
    decreases data.len() - off,
{
    if record_at(data, off, order) {
        seq![record_entry(data, off, order)] + records(
            data,
            off + record_len(data, off, order),
            order,
        )
    } else {
        Seq::empty()
    }
}

/// Whether every record of `data` from `off` on is long enough for its header.
pub open spec fn records_hold_headers(data: Seq<u8>, off: int, order: ByteOrder) -> bool
    decreases data.len() - off,
{
    record_at(data, off, order) ==> {
        &&& record_len(data, off, order) >= DIRENT_HEADER
        &&& records_hold_headers(data, off + record_len(data, off, order), order)
    }
}

/// A listing without the entries for the directory itself and its parent.
pub open spec fn without_dots(entries: Seq<RawEntry>) -> Seq<RawEntry> {
    entries.filter(|e: RawEntry| !is_dot_name(e.name))
}

/// Whether every record among the first `n` bytes of `buf` is long enough for
/// its header, as [`parse_getdents_buf`] needs it.
pub fn getdents_headers_fit(buf: &[u8], n: usize, order: ByteOrder) -> (fit: bool)
    requires
        n <= buf@.len(),
    ensures
        fit == records_hold_headers(buf@.take(n as int), 0, order),
{
    let ghost data = buf@.take(n as int);
    let mut off: usize = 0;
    while off < n && n - off >= DIRENT_HEADER
        invariant
            n <= buf@.len(),
            data == buf@.take(n as int),
            off <= n,
            records_hold_headers(data, 0, order) == records_hold_headers(data, off as int, order),
        decreases n - off,
    {
        let reclen: usize = read_record_len(buf, n, off, order);
        if reclen == 0 || reclen > n - off {
            return true;
        }
        if reclen < DIRENT_HEADER {
            return false;
        }
        off = off + reclen;
    }
    true
}

fn read_record_len(buf: &[u8], n: usize, off: usize, order: ByteOrder) -> (reclen: usize)
    requires
        n <= buf@.len(),
        off + DIRENT_HEADER <= n,
    ensures
        reclen == record_len(buf@.take(n as int), off as int, order),
{
    proof {
        assert(buf@.take(n as int).subrange(off + 16, off + 18) =~= buf@.subrange(
            off + 16,
            off + 18,
        ));
    }
    read_uint(buf, off + 16, 2, order) as usize
}

/// Parses the first `n` bytes of `buf`, which one `getdents64` call has
/// filled, into the entries they list. `.` and `..` are left out, and a
/// record that does not fit ends the listing.
pub fn parse_getdents_buf(buf: &[u8], n: usize, order: ByteOrder) -> (entries: Vec<RawDirEntry>)
    requires
        n <= buf@.len(),
        records_hold_headers(buf@.take(n as int), 0, order),
    ensures
        listing(entries@) == without_dots(records(buf@.take(n as int), 0, order)),
{
    let ghost data = buf@.take(n as int);
    let ghost all = records(data, 0, order);
    let ghost mut seen: Seq<RawEntry> = Seq::empty();
    let mut entries: Vec<RawDirEntry> = Vec::new();
    let mut off: usize = 0;
    proof {
        reveal(Seq::filter);
        assert(all =~= seen + records(data, 0, order));
        assert(listing(entries@) =~= without_dots(seen));
    }
    while off < n && n - off >= DIRENT_HEADER
        invariant_except_break
            all == seen + records(data, off as int, order),
        invariant
            n <= buf@.len(),
            data == buf@.take(n as int),
            off <= n,
            records_hold_headers(data, off as int, order),
            listing(entries@) == without_dots(seen),
        ensures
            all == seen,
        decreases n - off,
    {
        let reclen: usize = read_record_len(buf, n, off, order);
        if reclen == 0 || reclen > n - off {
            assert(all =~= seen);
            break;
        }
        let d_ino: u64 = read_uint(buf, off, 8, order);
        let d_type: u8 = buf[off + 18];
        let region = vstd::slice::slice_subrange(buf, off + DIRENT_HEADER, off + reclen);
        let name_len: usize = find_byte(region, 0);
        let name = vstd::slice::slice_subrange(region, 0, name_len);
        let ghost entry = record_entry(data, off as int, order);
        proof {
            assert(region@ =~= data.subrange(off + DIRENT_HEADER, off + reclen));
            crate::bytes::lemma_first_position(region@, 0);
            assert(name@ =~= entry.name);
            assert(data.subrange(off as int, off + 8) =~= buf@.subrange(off as int, off + 8));
            lemma_filter_push(seen, entry, |e: RawEntry| !is_dot_name(e.name));
            assert(all =~= seen.push(entry) + records(data, off + reclen, order));
            seen = seen.push(entry);
        }
        if !dot_name(name) {
            let ghost kept = entries@;
            entries.push(
                RawDirEntry {
                    name: copy_bytes(name),
                    file_type: d_type_to_file_type(d_type),
                    ino: d_ino,
                    size: None,
                    alloc_size: None,
                    dev: None,
                    nlink: None,
                },
            );
            assert(listing(entries@) =~= listing(kept).push(entry));
        }
        off = off + reclen;
    }
    entries
}

/// One round of reading a directory, given what `getdents64` returned: a
/// failure, the end of the directory (`None`), or the next entries.
pub fn read_dir_raw(
    buf: &[u8],
    read: Result<usize, IoError>,
    order: ByteOrder,
) -> (round: Result<Option<Vec<RawDirEntry>>, SysError>)
    requires
        read is Ok ==> read->Ok_0 <= buf@.len() && records_hold_headers(
            buf@.take(read->Ok_0 as int),
            0,
            order,
        ),
    ensures
        match read {
            Err(e) => round == Err::<Option<Vec<RawDirEntry>>, SysError>(SysError::Io(e)),
            Ok(n) => {
                &&& round is Ok
                &&& n == 0 <==> round->Ok_0 is None
                &&& n > 0 ==> listing(round->Ok_0->Some_0@) == without_dots(
                    records(buf@.take(n as int), 0, order),
                )
            },
        },
{
    match read {
        Err(e) => Err(SysError::Io(e)),
        Ok(n) => {
            if n == 0 {
                Ok(None)
            } else {
                Ok(Some(parse_getdents_buf(buf, n, order)))
            }
        },
    }
}

/// Whether the data from `off` on is made of whole records.
pub open spec fn is_whole(data: Seq<u8>, off: int, order: ByteOrder) -> bool
    decreases data.len() - off,
{
    off == data.len() || (record_at(data, off, order) && is_whole(
        data,
        off + record_len(data, off, order),
        order,
    ))
}

/// Records mean the same wherever they stand.
proof fn lemma_records_shifted(front: Seq<u8>, data: Seq<u8>, off: int, order: ByteOrder)
    requires
        0 <= off <= data.len(),
        records_hold_headers(data, off, order),
    ensures
        records(front + data, front.len() + off, order) == records(data, off, order),
    decreases data.len() - off,
{
    let all = front + data;
    let at = front.len() + off;
    if off + DIRENT_HEADER <= data.len() {
        assert(all.subrange(at + 16, at + 18) =~= data.subrange(off + 16, off + 18));
        assert(all.subrange(at, at + 8) =~= data.subrange(off, off + 8));
        if record_at(data, off, order) {
            let len = record_len(data, off, order);
            assert(all.subrange(at + DIRENT_HEADER, at + len) =~= data.subrange(
                off + DIRENT_HEADER,
                off + len,
            ));
            lemma_records_shifted(front, data, off + len, order);
        }
    }
}

proof fn lemma_records_joined(a: Seq<u8>, b: Seq<u8>, off: int, order: ByteOrder)
    requires
        0 <= off <= a.len(),
        is_whole(a, off, order),
        records_hold_headers(a, off, order),
        records_hold_headers(b, 0, order),
    ensures
        records(a + b, off, order) == records(a, off, order) + records(b, 0, order),
    decreases a.len() - off,
{
    let all = a + b;
    if off == a.len() {
        lemma_records_shifted(a, b, 0, order);
        assert(records(a, off, order) =~= Seq::<RawEntry>::empty());
        assert(records(all, off, order) =~= records(a, off, order) + records(b, 0, order));
    } else {
        let len = record_len(a, off, order);
        assert(all.subrange(off + 16, off + 18) =~= a.subrange(off + 16, off + 18));
        assert(all.subrange(off, off + 8) =~= a.subrange(off, off + 8));
        assert(all.subrange(off + DIRENT_HEADER, off + len) =~= a.subrange(
            off + DIRENT_HEADER,
            off + len,
        ));
        lemma_records_joined(a, b, off + len, order);
        assert(records(all, off, order) =~= records(a, off, order) + records(b, 0, order));
    }
}

/// It does not matter in how many rounds a directory is read: where the first
/// round ends with a whole record, two rounds list what one would.
pub proof fn law_rounds_add_up(a: Seq<u8>, b: Seq<u8>, order: ByteOrder)
    requires
        is_whole(a, 0, order),
        records_hold_headers(a, 0, order),
        records_hold_headers(b, 0, order),
    ensures
        without_dots(records(a + b, 0, order)) == without_dots(records(a, 0, order))
            + without_dots(records(b, 0, order)),
{
    lemma_records_joined(a, b, 0, order);
    lemma_filter_joined(
        records(a, 0, order),
        records(b, 0, order),
        |e: RawEntry| !is_dot_name(e.name),
    );
}

proof fn lemma_filter_joined(
    a: Seq<RawEntry>,
    b: Seq<RawEntry>,
    keep: spec_fn(RawEntry) -> bool,
)
    ensures
        (a + b).filter(keep) == a.filter(keep) + b.filter(keep),
    decreases b.len(),
{
    reveal(Seq::filter);
    if b.len() == 0 {
        assert(a + b =~= a);
        assert(b.filter(keep) =~= Seq::<RawEntry>::empty());
        assert(a.filter(keep) + b.filter(keep) =~= a.filter(keep));
    } else {
        let fewer = b.drop_last();
        let last = b.last();
        lemma_filter_joined(a, fewer, keep);
        assert(b =~= fewer.push(last));
        assert(a + b =~= (a + fewer).push(last));
        lemma_filter_push(fewer, last, keep);
        lemma_filter_push(a + fewer, last, keep);
        assert(a.filter(keep) + fewer.filter(keep).push(last) =~= (a.filter(keep) + fewer.filter(
            keep,
        )).push(last));
    }
}

/// The flag of `openat2` that keeps a path below the directory it starts in.
pub const RESOLVE_BENEATH: u64 = 8;

/// The request that `openat2` takes.
#[derive(Debug, Clone, Copy, PartialEq, Eq, Structural)]
pub struct OpenHow {
    pub flags: u64,
    pub mode: u64,
    pub resolve: u64,
}

/// Where `openat2` starts, and with which request: below the parent if there
/// is one, else at the current directory `cwd` with no restriction.
pub fn open_request(parent_fd: Option<i32>, cwd: i32, flags: u64) -> (request: (i32, OpenHow))
    ensures
        request.0 == (match parent_fd {
            Some(fd) => fd,
            None => cwd,
        }),
        request.1 == (OpenHow {
            flags,
            mode: 0,
            resolve: if parent_fd is Some {
                RESOLVE_BENEATH
            } else {
                0
            },
        }),
{
    match parent_fd {
        Some(fd) => (fd, OpenHow { flags, mode: 0, resolve: RESOLVE_BENEATH }),
        None => (cwd, OpenHow { flags, mode: 0, resolve: 0 }),
    }
}

/// What follows an `openat2` call.
pub enum OpenStep {
    /// The directory is open.
    Opened(i32),
    /// The kernel does not know the call: `openat` has to do. It does not keep
    /// a path below the directory that it starts in.
    UseOpenat,
    /// The directory cannot be opened.
    Failed(SysError),
}

/// Decides what follows an `openat2` call that returned `rc`, where `error` is
/// the error it left and `enosys` the number for an unknown system call. Where
/// the kernel does not know the call, a path below a parent is opened without
/// being kept below it.
pub fn openat2_outcome(rc: i64, error: IoError, enosys: i32) -> (step: OpenStep)
    requires
        rc <= i32::MAX,
    ensures
        step == (if rc >= 0 {
            OpenStep::Opened(rc as i32)
        } else if error.code == Some(enosys) {
            OpenStep::UseOpenat
        } else {
            OpenStep::Failed(SysError::Io(error))
        }),
{
    if rc >= 0 {
        return OpenStep::Opened(rc as i32);
    }
    let unknown_call = match error.code {
        Some(code) => code == enosys,
        None => false,
    };
    if unknown_call {
        OpenStep::UseOpenat
    } else {
        OpenStep::Failed(SysError::Io(error))
    }
}

/// The kind of file that the mode of a `statx` result describes.
pub fn statx_mode_to_file_type(mode: u16) -> (kind: FileType)
    ensures
        kind == mode_kind(mode),
{
    mode_to_file_type(mode)
}

/// The metadata that the fields of a successful `statx` call describe.
pub fn statx_entry(
    ino: u64,
    dev_major: u32,
    dev_minor: u32,
    size: u64,
    blocks: u64,
    mode: u16,
    nlink: u32,
) -> (meta: EntryMetadata)
    requires
        blocks * BLOCK_SIZE <= u64::MAX,
    ensures
        meta == (EntryMetadata {
            ino,
            dev: (dev_major * 0x1_0000_0000 + dev_minor) as u64,
            size,
            blocks,
            alloc_size: (blocks * BLOCK_SIZE) as u64,
            file_type: mode_kind(mode),
            nlink,
        }),
{
    let dev: u64 = ((dev_major as u64) << 32) | dev_minor as u64;
    assert(((dev_major as u64) << 32) | dev_minor as u64 == dev_major * 0x1_0000_0000 + dev_minor)
        by (bit_vector);
    entry_metadata(ino, dev, size, blocks, statx_mode_to_file_type(mode), nlink)
}

/// The types that the kernel gives are 8 for files, 4 for directories, 10 for
/// links and 0 where it does not say; it has others that do not matter.
pub proof fn law_types_are_told(d_type: u8, kind: FileType)
    requires
        call_ensures(d_type_to_file_type, (d_type,), kind),
    ensures
        kind == FileType::File <==> d_type == 8,
        kind == FileType::Directory <==> d_type == 4,
        kind == FileType::Symlink <==> d_type == 10,
        kind == FileType::Unknown <==> d_type == 0,
{
}

/// An entry as the kernel knows it.
pub struct Dirent {
    pub ino: u64,
    pub d_type: u8,
    pub name: Seq<u8>,
}

/// Whether bytes are the record of an entry: its inode number, eight bytes that do
/// not matter, the length of the record, the type, and the name with a NUL byte
/// behind it, which others may follow.
pub open spec fn is_record_of(bytes: Seq<u8>, entry: Dirent, order: ByteOrder) -> bool {
    &&& 20 + entry.name.len() <= bytes.len()
    &&& uint_at(bytes, 0, 8, order) == entry.ino
    &&& uint_at(bytes, 16, 2, order) == bytes.len()
    &&& bytes[18] == entry.d_type
    &&& bytes.subrange(19, 19 + entry.name.len() as int) == entry.name
    &&& bytes[19 + entry.name.len() as int] == 0
    &&& !entry.name.contains(0u8)
}

/// Records one after the other.
pub open spec fn concatenated(parts: Seq<Seq<u8>>) -> Seq<u8>
    decreases parts.len(),
{
    if parts.len() == 0 {
        Seq::empty()
    } else {
        parts[0] + concatenated(parts.drop_first())
    }
}

/// Whether a name is one that a listing shows.
pub open spec fn is_shown_name(name: Seq<u8>) -> bool {
    name != seq![46u8] && name != seq![46u8, 46u8]
}

/// How many of the first `n` entries are shown.
pub open spec fn shown_before(entries: Seq<Dirent>, n: int) -> nat
    decreases n,
{
    if n <= 0 {
        0
    } else {
        shown_before(entries, n - 1) + if is_shown_name(entries[n - 1].name) {
            1nat
        } else {
            0
        }
    }
}

proof fn lemma_headers_shifted(front: Seq<u8>, data: Seq<u8>, off: int, order: ByteOrder)
    requires
        0 <= off <= data.len(),
        records_hold_headers(data, off, order),
    ensures
        records_hold_headers(front + data, front.len() + off, order),
    decreases data.len() - off,
{
    let all = front + data;
    let at = front.len() + off;
    if off + DIRENT_HEADER <= data.len() {
        assert(all.subrange(at + 16, at + 18) =~= data.subrange(off + 16, off + 18));
        if record_at(data, off, order) {
            lemma_headers_shifted(front, data, off + record_len(data, off, order), order);
        }
    }
}

/// What the record of an entry says.
spec fn as_listed(entry: Dirent) -> RawEntry {
    RawEntry {
        name: entry.name,
        file_type: d_type_kind(entry.d_type),
        ino: entry.ino,
        size: None,
        alloc_size: None,
        dev: None,
        nlink: None,
    }
}

/// Whether no record stands at the start of the bytes: its header does not fit,
/// its length is zero, or it would end behind the bytes.
pub open spec fn is_no_record(bytes: Seq<u8>, order: ByteOrder) -> bool {
    ||| bytes.len() < 19
    ||| uint_at(bytes, 16, 2, order) == 0
    ||| uint_at(bytes, 16, 2, order) > bytes.len()
}

/// Whether the bytes start with a record that is too short for its own header.
pub open spec fn is_short_record(bytes: Seq<u8>, order: ByteOrder) -> bool {
    &&& !is_no_record(bytes, order)
    &&& uint_at(bytes, 16, 2, order) < 19
}

proof fn lemma_first_record(
    first: Seq<u8>,
    entry: Dirent,
    rest: Seq<u8>,
    order: ByteOrder,
)
    requires
        is_record_of(first, entry, order),
    ensures
        record_at(first + rest, 0, order),
        record_len(first + rest, 0, order) == first.len(),
        record_entry(first + rest, 0, order) == as_listed(entry),
{
    let data = first + rest;
    let len = first.len() as int;
    assert(data.subrange(16, 18) =~= first.subrange(16, 18));
    assert(data.subrange(0, 8) =~= first.subrange(0, 8));
    let region = data.subrange(DIRENT_HEADER as int, len);
    let n = entry.name.len() as int;
    assert(region =~= first.subrange(19, len));
    assert forall|j: int| 0 <= j < n implies region[j] == entry.name[j] && region[j] != 0u8 by {
        assert(first.subrange(19, 19 + n)[j] == entry.name[j]);
        assert(entry.name.contains(entry.name[j]));
    }
    crate::bytes::lemma_first_position_is(region, 0, n);
    assert(before(region, 0) =~= entry.name);
}

proof fn lemma_records_are_read(
    parts: Seq<Seq<u8>>,
    entries: Seq<Dirent>,
    end: Seq<u8>,
    order: ByteOrder,
)
    requires
        parts.len() == entries.len(),
        forall|i: int|
            0 <= i < parts.len() ==> is_record_of(#[trigger] parts[i], entries[i], order),
        is_no_record(end, order),
    ensures
        records_hold_headers(concatenated(parts) + end, 0, order),
        records(concatenated(parts) + end, 0, order) == entries.map_values(
            |e: Dirent| as_listed(e),
        ),
    decreases parts.len(),
{
    let data = concatenated(parts) + end;
    let views = entries.map_values(|e: Dirent| as_listed(e));
    if parts.len() == 0 {
        assert(data =~= end);
        assert(records(data, 0, order) =~= views);
    } else {
        let rest = concatenated(parts.drop_first()) + end;
        lemma_parts_after_first(parts, entries, order);
        lemma_records_are_read(parts.drop_first(), entries.drop_first(), end, order);
        lemma_headers_shifted(parts[0], rest, 0, order);
        lemma_records_shifted(parts[0], rest, 0, order);
        lemma_first_record(parts[0], entries[0], rest, order);
        assert(data =~= parts[0] + rest);
        assert(records(data, 0, order) =~= views);
    }
}

proof fn lemma_parts_after_first(parts: Seq<Seq<u8>>, entries: Seq<Dirent>, order: ByteOrder)
    requires
        parts.len() == entries.len(),
        parts.len() > 0,
        forall|i: int|
            0 <= i < parts.len() ==> is_record_of(#[trigger] parts[i], entries[i], order),
    ensures
        forall|i: int|
            0 <= i < parts.drop_first().len() ==> is_record_of(
                #[trigger] parts.drop_first()[i],
                entries.drop_first()[i],
                order,
            ),
        is_record_of(parts[0], entries[0], order),
{
    assert forall|i: int| 0 <= i < parts.drop_first().len() implies is_record_of(
        #[trigger] parts.drop_first()[i],
        entries.drop_first()[i],
        order,
    ) by {
        assert(parts.drop_first()[i] == parts[i + 1]);
    }
}

proof fn lemma_short_record(
    parts: Seq<Seq<u8>>,
    entries: Seq<Dirent>,
    end: Seq<u8>,
    order: ByteOrder,
)
    requires
        parts.len() == entries.len(),
        forall|i: int|
            0 <= i < parts.len() ==> is_record_of(#[trigger] parts[i], entries[i], order),
        is_short_record(end, order),
    ensures
        !records_hold_headers(concatenated(parts) + end, 0, order),
    decreases parts.len(),
{
    let data = concatenated(parts) + end;
    if parts.len() == 0 {
        assert(data =~= end);
    } else {
        let rest = concatenated(parts.drop_first()) + end;
        lemma_parts_after_first(parts, entries, order);
        lemma_short_record(parts.drop_first(), entries.drop_first(), end, order);
        lemma_first_record(parts[0], entries[0], rest, order);
        assert(data =~= parts[0] + rest);
        if records_hold_headers(data, 0, order) {
            lemma_headers_behind(parts[0], rest, 0, order);
        }
    }
}

proof fn lemma_headers_behind(front: Seq<u8>, data: Seq<u8>, off: int, order: ByteOrder)
    requires
        0 <= off <= data.len(),
        records_hold_headers(front + data, front.len() + off, order),
    ensures
        records_hold_headers(data, off, order),
    decreases data.len() - off,
{
    let all = front + data;
    let at = front.len() + off;
    if off + DIRENT_HEADER <= data.len() {
        assert(all.subrange(at + 16, at + 18) =~= data.subrange(off + 16, off + 18));
        if record_at(data, off, order) {
            lemma_headers_behind(front, data, off + record_len(data, off, order), order);
        }
    }
}

proof fn lemma_shown(entries: Seq<Dirent>, n: int, i: int)
    requires
        0 <= n <= entries.len(),
    ensures
        ({
            let kept = without_dots(entries.take(n).map_values(|e: Dirent| as_listed(e)));
            let at = shown_before(entries, i) as int;
            &&& kept.len() == shown_before(entries, n)
            &&& 0 <= i < n && is_shown_name(entries[i].name) ==> at < kept.len() && kept[at]
                == as_listed(entries[i])
        }),
    decreases n,
{
    let views = entries.take(n).map_values(|e: Dirent| as_listed(e));
    reveal(Seq::filter);
    if n > 0 {
        lemma_shown(entries, n - 1, i);
        let fewer = entries.take(n - 1).map_values(|e: Dirent| as_listed(e));
        assert(views =~= fewer.push(as_listed(entries[n - 1])));
        lemma_filter_push(
            fewer,
            as_listed(entries[n - 1]),
            |e: RawEntry| !is_dot_name(e.name),
        );
    }
}

/// Every record that the kernel has written into the buffer is listed, in order,
/// with its name, its type and its inode number: all but those for the directory
/// itself and its parent, whatever else their names start with. The listing ends
/// where no record follows.
pub proof fn law_every_record_is_listed(
    buf: &[u8],
    n: usize,
    order: ByteOrder,
    listed: Vec<RawDirEntry>,
    parts: Seq<Seq<u8>>,
    entries: Seq<Dirent>,
    end: Seq<u8>,
)
    requires
        call_ensures(parse_getdents_buf, (buf, n, order), listed),
        n <= buf@.len(),
        buf@.take(n as int) == concatenated(parts) + end,
        parts.len() == entries.len(),
        forall|i: int|
            0 <= i < parts.len() ==> is_record_of(#[trigger] parts[i], entries[i], order),
        is_no_record(end, order),
    ensures
        records_hold_headers(buf@.take(n as int), 0, order),
        listed@.len() == shown_before(entries, entries.len() as int),
        forall|i: int|
            0 <= i < entries.len() && is_shown_name((#[trigger] entries[i]).name) ==> {
                let at = shown_before(entries, i) as int;
                &&& at < listed@.len()
                &&& listed@[at].name@ == entries[i].name
                &&& listed@[at].file_type == d_type_kind(entries[i].d_type)
                &&& listed@[at].ino == entries[i].ino
                &&& listed@[at].size is None
                &&& listed@[at].alloc_size is None
                &&& listed@[at].dev is None
                &&& listed@[at].nlink is None
            },
{
    lemma_records_are_read(parts, entries, end, order);
    let len = entries.len() as int;
    assert(entries.take(len) =~= entries);
    lemma_shown(entries, len, 0);
    let views = listing(listed@);
    assert(views.len() == listed@.len());
    assert forall|i: int|
        0 <= i < entries.len() && is_shown_name((#[trigger] entries[i]).name) implies {
        let at = shown_before(entries, i) as int;
        at < listed@.len() && listed@[at]@ == as_listed(entries[i])
    } by {
        lemma_shown(entries, len, i);
        let at = shown_before(entries, i) as int;
        assert(views[at] == listed@[at]@);
    }
}

/// Records that are long enough for their headers are accepted, up to the place
/// where no record follows; one that is too short is not.
pub proof fn law_short_records_are_refused(
    buf: &[u8],
    n: usize,
    order: ByteOrder,
    fit: bool,
    parts: Seq<Seq<u8>>,
    entries: Seq<Dirent>,
    end: Seq<u8>,
)
    requires
        call_ensures(getdents_headers_fit, (buf, n, order), fit),
        n <= buf@.len(),
        buf@.take(n as int) == concatenated(parts) + end,
        parts.len() == entries.len(),
        forall|i: int|
            0 <= i < parts.len() ==> is_record_of(#[trigger] parts[i], entries[i], order),
    ensures
        is_no_record(end, order) ==> fit,
        is_short_record(end, order) ==> !fit,
{
    if is_no_record(end, order) {
        lemma_records_are_read(parts, entries, end, order);
    }
    if is_short_record(end, order) {
        lemma_short_record(parts, entries, end, order);
    }
}

/// A round that failed gives its error, one that read nothing is the end of the
/// directory, and any other gives the entries of the buffer.
pub proof fn law_rounds_end_with_nothing(
    buf: &[u8],
    read: Result<usize, IoError>,
    order: ByteOrder,
    round: Result<Option<Vec<RawDirEntry>>, SysError>,
)
    requires
        call_ensures(read_dir_raw, (buf, read, order), round),
    ensures
        read matches Err(e) ==> round is Err && round->Err_0 == SysError::Io(e),
        read matches Ok(n) ==> round is Ok && (round->Ok_0 is None <==> n == 0),
        read matches Ok(n) ==> n > 0 ==> listing(round->Ok_0->Some_0@) == without_dots(
            records(buf@.take(n as int), 0, order),
        ),
{
}

/// A path below a directory is opened from that directory and kept below it; any
/// other is opened from the current directory, without that restriction.
pub proof fn law_requests_keep_below_parents(
    parent_fd: Option<i32>,
    cwd: i32,
    flags: u64,
    request: (i32, OpenHow),
)
    requires
        call_ensures(open_request, (parent_fd, cwd, flags), request),
    ensures
        parent_fd matches Some(fd) ==> request.0 == fd && request.1.resolve == 8,
        parent_fd is None ==> request.0 == cwd && request.1.resolve == 0,
        request.1.flags == flags,
        request.1.mode == 0,
{
}

/// A call that succeeded gives its descriptor; one that the kernel does not know
/// is made in another way; any other failure is one.
pub proof fn law_unknown_calls_are_replaced(rc: i64, error: IoError, enosys: i32, step: OpenStep)
    requires
        call_ensures(openat2_outcome, (rc, error, enosys), step),
        rc <= i32::MAX,
    ensures
        rc >= 0 ==> step is Opened && step->Opened_0 == rc,
        rc < 0 && error.code == Some(enosys) ==> step is UseOpenat,
        rc < 0 && error.code != Some(enosys) ==> step is Failed && step->Failed_0 == SysError::Io(
            error,
        ),
{
}

/// The device of a file has its major number in the upper half and its minor
/// number in the lower; its type is in its mode, and its allocated size in its
/// blocks.
pub proof fn law_statx_fields_are_kept(
    ino: u64,
    dev_major: u32,
    dev_minor: u32,
    size: u64,
    blocks: u64,
    mode: u16,
    nlink: u32,
    meta: EntryMetadata,
)
    requires
        call_ensures(statx_entry, (ino, dev_major, dev_minor, size, blocks, mode, nlink), meta),
        512 * blocks <= u64::MAX,
    ensures
        meta.dev / 0x1_0000_0000 == dev_major,
        meta.dev % 0x1_0000_0000 == dev_minor,
        meta.alloc_size == 512 * blocks,
        meta.blocks == blocks,
        meta.size == size,
        meta.ino == ino,
        meta.nlink == nlink,
        meta.file_type == mode_kind(mode),
{
}

} // verus!
