//! macOS: `getattrlistbulk` listings.
use crate::bytes::{before, copy_bytes, find_byte, read_uint, uint_at, ByteOrder};
use crate::sys::{
    dot_name, is_dot_name, listing, FileType, IoError, RawDirEntry, RawEntry, SysError,
};
use vstd::prelude::*;

verus! {

/// The size of the buffer that a worker reads directory listings into.
pub const BULK_BUF_SIZE: usize = 131072;

pub const ATTR_CMN_NAME: u32 = 0x0000_0001;

pub const ATTR_CMN_DEVID: u32 = 0x0000_0002;

pub const ATTR_CMN_OBJTYPE: u32 = 0x0000_0008;

pub const ATTR_CMN_FILEID: u32 = 0x0200_0000;

pub const ATTR_CMN_ERROR: u32 = 0x2000_0000;

pub const ATTR_FILE_LINKCOUNT: u32 = 0x0000_0001;

pub const ATTR_FILE_ALLOCSIZE: u32 = 0x0000_0004;

pub const ATTR_FILE_DATALENGTH: u32 = 0x0000_0200;

pub const VREG: u32 = 1;

pub const VDIR: u32 = 2;

pub const VLNK: u32 = 5;

/// Where the attributes of a record start: behind its length (4) and the five
/// words that say which attributes were returned (20).
pub const ATTRS_START: usize = 24;

/// The kind of file that an object type stands for.
pub open spec fn obj_kind(obj_type: u32) -> FileType {
    if obj_type == VREG {
        FileType::File
    } else if obj_type == VDIR {
        FileType::Directory
    } else if obj_type == VLNK {
        FileType::Symlink
    } else {
        FileType::Other
    }
}

pub fn obj_type_to_file_type(obj_type: u32) -> (kind: FileType)
    ensures
        kind == obj_kind(obj_type),
{
    if obj_type == VREG {
        FileType::File
    } else if obj_type == VDIR {
        FileType::Directory
    } else if obj_type == VLNK {
        FileType::Symlink
    } else {
        FileType::Other
    }
}

/// The common attributes that a record says it holds.
pub open spec fn common_attrs(entry: Seq<u8>, order: ByteOrder) -> u32 {
    uint_at(entry, 4, 4, order) as u32
}

/// The file attributes that a record says it holds.
pub open spec fn file_attrs(entry: Seq<u8>, order: ByteOrder) -> u32 {
    uint_at(entry, 16, 4, order) as u32
}

/// The space that an attribute of `width` bytes takes if its flag is set.
pub open spec fn space(attrs: u32, flag: u32, width: int) -> int {
    if attrs & flag != 0 {
        width
    } else {
        0
    }
}

/// The attributes follow each other in a fixed order, those that are not
/// returned taking no space: name, error, device id, object type, file id, and
/// of a file its link count, allocated size and data length.
pub open spec fn error_pos(common: u32) -> int {
    ATTRS_START + space(common, ATTR_CMN_NAME, 8)
}

pub open spec fn dev_pos(common: u32) -> int {
    error_pos(common) + space(common, ATTR_CMN_ERROR, 4)
}

pub open spec fn obj_type_pos(common: u32) -> int {
    dev_pos(common) + space(common, ATTR_CMN_DEVID, 4)
}

pub open spec fn file_id_pos(common: u32) -> int {
    obj_type_pos(common) + space(common, ATTR_CMN_OBJTYPE, 4)
}

pub open spec fn link_count_pos(common: u32) -> int {
    file_id_pos(common) + space(common, ATTR_CMN_FILEID, 8)
}

pub open spec fn alloc_size_pos(common: u32, file: u32) -> int {
    link_count_pos(common) + space(file, ATTR_FILE_LINKCOUNT, 4)
}

pub open spec fn data_length_pos(common: u32, file: u32) -> int {
    alloc_size_pos(common, file) + space(file, ATTR_FILE_ALLOCSIZE, 8)
}

/// The value of an attribute, where it was returned and lies in the record.
pub open spec fn attribute(
    entry: Seq<u8>,
    attrs: u32,
    flag: u32,
    pos: int,
    width: int,
    order: ByteOrder,
) -> Option<nat> {
    if attrs & flag != 0 && pos + width <= entry.len() {
        Some(uint_at(entry, pos, width, order))
    } else {
        None
    }
}

/// The number that 32 bits stand for in two's complement.
pub open spec fn signed32(bits: nat) -> int {
    if bits >= 0x8000_0000 {
        bits - 0x1_0000_0000
    } else {
        bits as int
    }
}

/// The device that a 32-bit device id stands for: as a `dev_t`, it keeps its
/// sign when it is widened.
pub open spec fn widened_dev(bits: nat) -> u64 {
    if bits >= 0x8000_0000 {
        (bits + 0xffff_ffff_0000_0000) as u64
    } else {
        bits as u64
    }
}

/// The sizes of a file, from its data length and its allocated size. A listing
/// that gives the allocated size alone has it stand for both.
pub open spec fn listed_sizes(alloc: Option<nat>, data: Option<nat>) -> (Option<u64>, Option<u64>) {
    match (data, alloc) {
        (Some(data), Some(alloc)) => (Some(data as u64), Some(alloc as u64)),
        (Some(data), None) => (Some(data as u64), None),
        (None, Some(alloc)) => (Some(alloc as u64), None),
        (None, None) => (None, None),
    }
}

/// The bytes of a record that its name reference points at: the reference
/// holds an offset from its own place, and a length.
pub open spec fn referenced_name(entry: Seq<u8>, order: ByteOrder) -> Option<Seq<u8>> {
    let start = ATTRS_START + signed32(uint_at(entry, ATTRS_START as int, 4, order));
    let len = uint_at(entry, ATTRS_START + 4, 4, order) as int;
    if common_attrs(entry, order) & ATTR_CMN_NAME != 0 && ATTRS_START + 8 <= entry.len() && 0
        <= start < entry.len() && start + len <= entry.len() {
        Some(before(entry.subrange(start, start + len), 0))
    } else {
        None
    }
}

/// The entry that a record describes. A record that is too short, reports an
/// error, has no usable name or stands for `.` or `..` describes none.
pub open spec fn bulk_record(entry: Seq<u8>, order: ByteOrder) -> Option<RawEntry> {
    let common = common_attrs(entry, order);
    let file = file_attrs(entry, order);
    let dev = attribute(entry, common, ATTR_CMN_DEVID, dev_pos(common), 4, order);
    let links = attribute(entry, file, ATTR_FILE_LINKCOUNT, link_count_pos(common), 4, order);
    let data_length = attribute(
        entry,
        file,
        ATTR_FILE_DATALENGTH,
        data_length_pos(common, file),
        8,
        order,
    );
    let error = attribute(entry, common, ATTR_CMN_ERROR, error_pos(common), 4, order);
    let obj_type = attribute(entry, common, ATTR_CMN_OBJTYPE, obj_type_pos(common), 4, order);
    let file_id = attribute(entry, common, ATTR_CMN_FILEID, file_id_pos(common), 8, order);
    let alloc_size = attribute(
        entry,
        file,
        ATTR_FILE_ALLOCSIZE,
        alloc_size_pos(common, file),
        8,
        order,
    );
    let kind = match obj_type {
        Some(t) => obj_kind(t as u32),
        None => FileType::Unknown,
    };
    match referenced_name(entry, order) {
        Some(name) if entry.len() >= ATTRS_START && !(error is Some && error->Some_0 != 0)
            && !is_dot_name(name) => Some(
            RawEntry {
                name,
                file_type: kind,
                ino: match file_id {
                    Some(id) => id as u64,
                    None => 0,
                },
                size: if kind == FileType::File {
                    listed_sizes(alloc_size, data_length).0
                } else {
                    None
                },
                alloc_size: if kind == FileType::File {
                    listed_sizes(alloc_size, data_length).1
                } else {
                    None
                },
                dev: match dev {
                    Some(bits) => Some(widened_dev(bits)),
                    None => None,
                },
                nlink: match links {
                    Some(n) if kind == FileType::File => Some(n as u32),
                    _ => None,
                },
            },
        ),
        _ => None,
    }
}

/// The length that the record at `pos` gives itself.
pub open spec fn bulk_len(buf: Seq<u8>, pos: int, order: ByteOrder) -> int {
    uint_at(buf, pos, 4, order) as int
}

/// The entries of at most `count` records from `pos` on, up to the first place
/// where no record fits.
pub open spec fn bulk_records(
    buf: Seq<u8>,
    pos: int,
    count: nat,
    order: ByteOrder,
) -> Seq<RawEntry>
    decreases count,
{
    let len = bulk_len(buf, pos, order);
    if count == 0 || pos + 4 > buf.len() || len == 0 || pos + len > buf.len() {
        Seq::empty()
    } else {
        let rest = bulk_records(buf, pos + len, (count - 1) as nat, order);
        match bulk_record(buf.subrange(pos, pos + len), order) {
            Some(e) => seq![e] + rest,
            None => rest,
        }
    }
}

fn read_attribute(
    entry: &[u8],
    attrs: u32,
    flag: u32,
    pos: usize,
    width: usize,
    order: ByteOrder,
) -> (value: Option<u64>)
    requires
        width == 4 || width == 8,
        pos <= 1000,
    ensures
        attribute(entry@, attrs, flag, pos as int, width as int, order) == (match value {
            Some(v) => Some(v as nat),
            None => None,
        }),
        width == 4 && value is Some ==> value->Some_0 <= u32::MAX,
{
    if attrs & flag != 0 && pos + width <= entry.len() {
        Some(read_uint(entry, pos, width, order))
    } else {
        None
    }
}

/// The attributes of a record, as far as they were returned.
struct Attributes {
    error: Option<u64>,
    dev: Option<u64>,
    obj_type: Option<u64>,
    file_id: Option<u64>,
    links: Option<u64>,
    alloc_size: Option<u64>,
    data_length: Option<u64>,
}

spec fn as_nat(value: Option<u64>) -> Option<nat> {
    match value {
        Some(v) => Some(v as nat),
        None => None,
    }
}

fn width_of(attrs: u32, flag: u32, width: usize) -> (taken: usize)
    ensures
        taken == space(attrs, flag, width as int),
        taken <= width,
{
    if attrs & flag != 0 {
        width
    } else {
        0
    }
}

fn read_attributes(entry: &[u8], common: u32, file: u32, order: ByteOrder) -> (found: Attributes)
    ensures
        as_nat(found.error) == attribute(
            entry@,
            common,
            ATTR_CMN_ERROR,
            error_pos(common),
            4,
            order,
        ),
        as_nat(found.dev) == attribute(entry@, common, ATTR_CMN_DEVID, dev_pos(common), 4, order),
        as_nat(found.obj_type) == attribute(
            entry@,
            common,
            ATTR_CMN_OBJTYPE,
            obj_type_pos(common),
            4,
            order,
        ),
        as_nat(found.file_id) == attribute(
            entry@,
            common,
            ATTR_CMN_FILEID,
            file_id_pos(common),
            8,
            order,
        ),
        as_nat(found.links) == attribute(
            entry@,
            file,
            ATTR_FILE_LINKCOUNT,
            link_count_pos(common),
            4,
            order,
        ),
        as_nat(found.alloc_size) == attribute(
            entry@,
            file,
            ATTR_FILE_ALLOCSIZE,
            alloc_size_pos(common, file),
            8,
            order,
        ),
        as_nat(found.data_length) == attribute(
            entry@,
            file,
            ATTR_FILE_DATALENGTH,
            data_length_pos(common, file),
            8,
            order,
        ),
        found.dev is Some ==> found.dev->Some_0 <= u32::MAX,
        found.obj_type is Some ==> found.obj_type->Some_0 <= u32::MAX,
        found.links is Some ==> found.links->Some_0 <= u32::MAX,
{
    let error_at: usize = ATTRS_START + width_of(common, ATTR_CMN_NAME, 8);
    let dev_at: usize = error_at + width_of(common, ATTR_CMN_ERROR, 4);
    let obj_type_at: usize = dev_at + width_of(common, ATTR_CMN_DEVID, 4);
    let file_id_at: usize = obj_type_at + width_of(common, ATTR_CMN_OBJTYPE, 4);
    let links_at: usize = file_id_at + width_of(common, ATTR_CMN_FILEID, 8);
    let alloc_at: usize = links_at + width_of(file, ATTR_FILE_LINKCOUNT, 4);
    let data_at: usize = alloc_at + width_of(file, ATTR_FILE_ALLOCSIZE, 8);
    Attributes {
        error: read_attribute(entry, common, ATTR_CMN_ERROR, error_at, 4, order),
        dev: read_attribute(entry, common, ATTR_CMN_DEVID, dev_at, 4, order),
        obj_type: read_attribute(entry, common, ATTR_CMN_OBJTYPE, obj_type_at, 4, order),
        file_id: read_attribute(entry, common, ATTR_CMN_FILEID, file_id_at, 8, order),
        links: read_attribute(entry, file, ATTR_FILE_LINKCOUNT, links_at, 4, order),
        alloc_size: read_attribute(entry, file, ATTR_FILE_ALLOCSIZE, alloc_at, 8, order),
        data_length: read_attribute(entry, file, ATTR_FILE_DATALENGTH, data_at, 8, order),
    }
}

/// Follows the name reference of a record.
fn read_name(entry: &[u8], common: u32, order: ByteOrder) -> (name: Option<Vec<u8>>)
    requires
        common == common_attrs(entry@, order),
    ensures
        referenced_name(entry@, order) == (match name {
            Some(name) => Some(name@),
            None => None,
        }),
{
    let len: usize = entry.len();
    if common & ATTR_CMN_NAME == 0 || len < ATTRS_START + 8 {
        return None;
    }
    let bits: u64 = read_uint(entry, ATTRS_START, 4, order);
    let name_len: u64 = read_uint(entry, ATTRS_START + 4, 4, order);
    let offset: i64 = if bits >= 0x8000_0000 {
        bits as i64 - 0x1_0000_0000
    } else {
        bits as i64
    };
    let start: i64 = ATTRS_START as i64 + offset;
    if start < 0 || start as u64 >= len as u64 {
        return None;
    }
    if name_len > len as u64 - start as u64 {
        return None;
    }
    let from: usize = start as usize;
    let raw_name = vstd::slice::slice_subrange(entry, from, from + name_len as usize);
    let nul: usize = find_byte(raw_name, 0);
    let name = vstd::slice::slice_subrange(raw_name, 0, nul);
    assert(name@ =~= before(raw_name@, 0));
    Some(copy_bytes(name))
}

fn widen_dev(bits: u64) -> (dev: u64)
    requires
        bits <= u32::MAX,
    ensures
        dev == widened_dev(bits as nat),
{
    if bits >= 0x8000_0000 {
        bits + 0xffff_ffff_0000_0000
    } else {
        bits
    }
}

/// Parses one record of a bulk listing.
pub fn parse_bulk_record(entry: &[u8], order: ByteOrder) -> (parsed: Option<RawDirEntry>)
    ensures
        bulk_record(entry@, order) == (match parsed {
            Some(e) => Some(e@),
            None => None,
        }),
{
    if entry.len() < ATTRS_START {
        return None;
    }
    let common: u32 = read_uint(entry, 4, 4, order) as u32;
    let file: u32 = read_uint(entry, 16, 4, order) as u32;
    let found = read_attributes(entry, common, file, order);
    if let Some(code) = found.error {
        if code != 0 {
            return None;
        }
    }
    let name = match read_name(entry, common, order) {
        Some(name) => name,
        None => {
            return None;
        },
    };
    if dot_name(name.as_slice()) {
        return None;
    }
    let kind = match found.obj_type {
        Some(t) => obj_type_to_file_type(t as u32),
        None => FileType::Unknown,
    };
    let ino: u64 = match found.file_id {
        Some(id) => id,
        None => 0,
    };
    let dev: Option<u64> = match found.dev {
        Some(bits) => Some(widen_dev(bits)),
        None => None,
    };
    let (size, alloc_size, nlink): (Option<u64>, Option<u64>, Option<u32>) = if kind
        == FileType::File {
        let nlink: Option<u32> = match found.links {
            Some(n) => Some(n as u32),
            None => None,
        };
        match found.data_length {
            Some(data) => (Some(data), found.alloc_size, nlink),
            None => (found.alloc_size, None, nlink),
        }
    } else {
        (None, None, None)
    };
    Some(RawDirEntry { name, file_type: kind, ino, size, alloc_size, dev, nlink })
}

/// Parses the `count` records that one `getattrlistbulk` call has put into
/// `buf`. A record that cannot be used is skipped, and one that does not fit
/// ends the listing.
pub fn parse_bulk_buffer(buf: &[u8], count: usize, order: ByteOrder) -> (entries: Vec<
    RawDirEntry,
>)
    ensures
        listing(entries@) == bulk_records(buf@, 0, count as nat, order),
{
    let len: usize = buf.len();
    let ghost all = bulk_records(buf@, 0, count as nat, order);
    let mut entries: Vec<RawDirEntry> = Vec::new();
    let mut pos: usize = 0;
    let mut left: usize = count;
    assert(all =~= listing(entries@) + bulk_records(buf@, 0, count as nat, order));
    while left > 0
        invariant_except_break
            all == listing(entries@) + bulk_records(buf@, pos as int, left as nat, order),
        invariant
            len == buf@.len(),
            pos <= len,
        ensures
            all == listing(entries@),
        decreases left,
    {
        if len - pos < 4 {
            break;
        }
        let entry_len: usize = read_uint(buf, pos, 4, order) as usize;
        if entry_len == 0 || entry_len > len - pos {
            break;
        }
        let entry = vstd::slice::slice_subrange(buf, pos, pos + entry_len);
        let ghost kept = entries@;
        let ghost rest = bulk_records(buf@, pos + entry_len, (left - 1) as nat, order);
        match parse_bulk_record(entry, order) {
            Some(e) => {
                entries.push(e);
                assert(listing(entries@) =~= listing(kept).push(e@));
                assert(listing(kept) + (seq![e@] + rest) =~= listing(entries@) + rest);
            },
            None => {},
        }
        pos = pos + entry_len;
        left = left - 1;
    }
    entries
}

/// One round of reading a directory, given what `getattrlistbulk` returned: a
/// failure, the end of the directory (`None`), or the next entries.
pub fn read_dir_raw(
    buf: &[u8],
    n: i32,
    error: IoError,
    order: ByteOrder,
) -> (round: Result<Option<Vec<RawDirEntry>>, SysError>)
    ensures
        n < 0 ==> round == Err::<Option<Vec<RawDirEntry>>, SysError>(SysError::Io(error)),
        n >= 0 ==> round is Ok,
        n == 0 ==> round->Ok_0 is None,
        n > 0 ==> round->Ok_0 is Some && listing(round->Ok_0->Some_0@) == bulk_records(
            buf@,
            0,
            n as nat,
            order,
        ),
{
    if n == 0 {
        Ok(None)
    } else if n < 0 {
        Err(SysError::Io(error))
    } else {
        Ok(Some(parse_bulk_buffer(buf, n as usize, order)))
    }
}

/// The object types are 1 for files, 2 for directories and 5 for links.
pub proof fn law_object_types_are_told(obj_type: u32, kind: FileType)
    requires
        call_ensures(obj_type_to_file_type, (obj_type,), kind),
    ensures
        kind == FileType::File <==> obj_type == 1,
        kind == FileType::Directory <==> obj_type == 2,
        kind == FileType::Symlink <==> obj_type == 5,
        kind != FileType::Unknown,
{
}

/// Whether the name reference of a record leads to a name: it gives an offset from
/// its own place, at byte 24, and a length, within which a NUL byte may end the
/// name.
pub open spec fn refers_to(entry: Seq<u8>, name: Seq<u8>, order: ByteOrder) -> bool {
    let offset = uint_at(entry, 24, 4, order) as int;
    let start = 24 + if offset < 0x8000_0000 {
        offset
    } else {
        offset - 0x1_0000_0000
    };
    let len = uint_at(entry, 28, 4, order) as int;
    &&& 0 <= start < entry.len()
    &&& start + len <= entry.len()
    &&& name.len() <= len
    &&& entry.subrange(start, start + name.len()) == name
    &&& !name.contains(0u8)
    &&& name.len() < len ==> entry[start + name.len()] == 0
}

proof fn lemma_refers_to(entry: Seq<u8>, name: Seq<u8>, order: ByteOrder)
    requires
        refers_to(entry, name, order),
        entry.len() >= 32,
        common_attrs(entry, order) & ATTR_CMN_NAME != 0,
    ensures
        referenced_name(entry, order) == Some(name),
{
    let start = 24 + signed32(uint_at(entry, 24, 4, order));
    let len = uint_at(entry, 28, 4, order) as int;
    let n = name.len() as int;
    let region = entry.subrange(start, start + len);
    assert forall|j: int| 0 <= j < n implies region[j] == name[j] && region[j] != 0u8 by {
        assert(entry.subrange(start, start + n)[j] == name[j]);
        assert(name.contains(name[j]));
    }
    crate::bytes::lemma_first_position_is(region, 0, n);
    assert(before(region, 0) =~= name);
}

/// A record with all the attributes gives each of them: the name, the device, the
/// type and the inode number, and of a file its link count, its data length as its
/// size and its allocated size. A record that reports an error, or that stands
/// for the directory itself or its parent, gives nothing.
pub proof fn law_full_records_are_read(
    entry: &[u8],
    order: ByteOrder,
    parsed: Option<RawDirEntry>,
    name: Seq<u8>,
)
    requires
        call_ensures(parse_bulk_record, (entry, order), parsed),
        entry@.len() >= 72,
        uint_at(entry@, 4, 4, order) == 0x2200_000b,
        uint_at(entry@, 16, 4, order) == 0x205,
        refers_to(entry@, name, order),
    ensures
        parsed is Some <==> uint_at(entry@, 32, 4, order) == 0 && name != seq![46u8] && name
            != seq![46u8, 46u8],
        parsed matches Some(e) ==> {
            let dev = uint_at(entry@, 36, 4, order);
            let obj_type = uint_at(entry@, 40, 4, order);
            &&& e.name@ == name
            &&& e.dev is Some
            &&& dev < 0x8000_0000 ==> e.dev->Some_0 == dev
            &&& 0x8000_0000 <= dev < 0x1_0000_0000 ==> e.dev->Some_0 == dev + 0xffff_ffff_0000_0000
            &&& obj_type <= u32::MAX ==> e.file_type == obj_kind(obj_type as u32)
            &&& e.ino == uint_at(entry@, 44, 8, order) as u64
            &&& if e.file_type == FileType::File {
                &&& e.nlink == Some(uint_at(entry@, 52, 4, order) as u32)
                &&& e.alloc_size == Some(uint_at(entry@, 56, 8, order) as u64)
                &&& e.size == Some(uint_at(entry@, 64, 8, order) as u64)
            } else {
                e.nlink is None && e.alloc_size is None && e.size is None
            }
        },
{
    let common: u32 = 0x2200_000b;
    let file: u32 = 0x205;
    assert(0x2200_000bu32 & 0x0000_0001 != 0 && 0x2200_000bu32 & 0x0000_0002 != 0 && 0x2200_000bu32
        & 0x0000_0008 != 0 && 0x2200_000bu32 & 0x0200_0000 != 0 && 0x2200_000bu32 & 0x2000_0000
        != 0) by (bit_vector);
    assert(0x205u32 & 0x0000_0001 != 0 && 0x205u32 & 0x0000_0004 != 0 && 0x205u32 & 0x0000_0200
        != 0) by (bit_vector);
    assert(common_attrs(entry@, order) == common);
    assert(file_attrs(entry@, order) == file);
    lemma_refers_to(entry@, name, order);
    if let Some(e) = parsed {
        assert(bulk_record(entry@, order) == Some(e@));
        assert(e@.name == e.name@);
    }
}

/// A record whose only size is the allocated one, and that gives neither device
/// nor link count, has that size stand for the size of a file; what it does not
/// give is left open, and what it gives moves up.
pub proof fn law_short_records_are_read(
    entry: &[u8],
    order: ByteOrder,
    parsed: Option<RawDirEntry>,
    name: Seq<u8>,
)
    requires
        call_ensures(parse_bulk_record, (entry, order), parsed),
        entry@.len() >= 56,
        uint_at(entry@, 4, 4, order) == 0x2200_0009,
        uint_at(entry@, 16, 4, order) == 0x4,
        refers_to(entry@, name, order),
    ensures
        parsed is Some <==> uint_at(entry@, 32, 4, order) == 0 && name != seq![46u8] && name
            != seq![46u8, 46u8],
        parsed matches Some(e) ==> {
            let obj_type = uint_at(entry@, 36, 4, order);
            &&& e.name@ == name
            &&& obj_type <= u32::MAX ==> e.file_type == obj_kind(obj_type as u32)
            &&& e.ino == uint_at(entry@, 40, 8, order) as u64
            &&& e.dev is None
            &&& e.nlink is None
            &&& e.alloc_size is None
            &&& e.size == (if e.file_type == FileType::File {
                Some(uint_at(entry@, 48, 8, order) as u64)
            } else {
                None
            })
        },
{
    let common: u32 = 0x2200_0009;
    let file: u32 = 0x4;
    assert(0x2200_0009u32 & 0x0000_0001 != 0 && 0x2200_0009u32 & 0x0000_0002 == 0 && 0x2200_0009u32
        & 0x0000_0008 != 0 && 0x2200_0009u32 & 0x0200_0000 != 0 && 0x2200_0009u32 & 0x2000_0000
        != 0) by (bit_vector);
    assert(0x4u32 & 0x0000_0001 == 0 && 0x4u32 & 0x0000_0004 != 0 && 0x4u32 & 0x0000_0200 == 0)
        by (bit_vector);
    assert(common_attrs(entry@, order) == common);
    assert(file_attrs(entry@, order) == file);
    lemma_refers_to(entry@, name, order);
    if let Some(e) = parsed {
        assert(bulk_record(entry@, order) == Some(e@));
        assert(e@.name == e.name@);
    }
}

/// How many of the first `n` records describe an entry, where `read` tells what a
/// record describes.
pub open spec fn described_before(
    parts: Seq<Seq<u8>>,
    read: spec_fn(Seq<u8>) -> Option<RawEntry>,
    n: int,
) -> nat
    decreases n,
{
    if n <= 0 {
        0
    } else {
        described_before(parts, read, n - 1) + if read(parts[n - 1]) is Some {
            1nat
        } else {
            0
        }
    }
}

/// The entries that the records from `from` on describe.
spec fn described_from(
    parts: Seq<Seq<u8>>,
    read: spec_fn(Seq<u8>) -> Option<RawEntry>,
    from: int,
) -> Seq<RawEntry>
    decreases parts.len() - from,
{
    if from >= parts.len() {
        Seq::empty()
    } else {
        match read(parts[from]) {
            Some(e) => seq![e] + described_from(parts, read, from + 1),
            None => described_from(parts, read, from + 1),
        }
    }
}

/// Where the record at `n` starts.
pub open spec fn start_of(parts: Seq<Seq<u8>>, n: int) -> int
    decreases n,
{
    if n <= 0 {
        0
    } else {
        start_of(parts, n - 1) + parts[n - 1].len()
    }
}

/// Whether a buffer holds records one after the other, each starting with its own
/// length.
pub open spec fn holds_records(buf: Seq<u8>, parts: Seq<Seq<u8>>, order: ByteOrder) -> bool {
    forall|i: int|
        #![trigger parts[i]]
        0 <= i < parts.len() ==> {
            &&& parts[i].len() >= 4
            &&& uint_at(parts[i], 0, 4, order) == parts[i].len()
            &&& start_of(parts, i) + parts[i].len() <= buf.len()
            &&& buf.subrange(start_of(parts, i), start_of(parts, i) + parts[i].len()) == parts[i]
        }
}

proof fn lemma_described(
    parts: Seq<Seq<u8>>,
    read: spec_fn(Seq<u8>) -> Option<RawEntry>,
    from: int,
    i: int,
)
    requires
        0 <= from <= parts.len(),
    ensures
        ({
            let listed = described_from(parts, read, from);
            let at = described_before(parts, read, i) - described_before(parts, read, from);
            &&& listed.len() == described_before(parts, read, parts.len() as int)
                - described_before(parts, read, from)
            &&& from <= i < parts.len() && read(parts[i]) is Some ==> 0 <= at < listed.len()
                && Some(listed[at]) == read(parts[i])
        }),
    decreases parts.len() - from,
{
    if from < parts.len() {
        lemma_described(parts, read, from + 1, i);
        if i > from {
            lemma_described_grows(parts, read, from + 1, i);
        }
    }
}

/// Whether no record stands at a place in a buffer: its length does not fit, is
/// zero, or leads behind the end.
pub open spec fn is_no_record_at(buf: Seq<u8>, at: int, order: ByteOrder) -> bool {
    ||| at + 4 > buf.len()
    ||| uint_at(buf, at, 4, order) == 0
    ||| at + uint_at(buf, at, 4, order) > buf.len()
}

/// What a record describes.
#[verifier::opaque]
spec fn described(part: Seq<u8>, order: ByteOrder) -> Option<RawEntry> {
    bulk_record(part, order)
}

/// What the records from a place on describe.
#[verifier::opaque]
spec fn listed_at(buf: Seq<u8>, pos: int, count: nat, order: ByteOrder) -> Seq<RawEntry> {
    bulk_records(buf, pos, count, order)
}

/// The first record of those from `pos` on, where it is known.
proof fn lemma_first_bulk_record(
    buf: Seq<u8>,
    pos: int,
    count: nat,
    order: ByteOrder,
    part: Seq<u8>,
)
    requires
        count > 0,
        0 <= pos,
        part.len() >= 4,
        pos + part.len() <= buf.len(),
        buf.subrange(pos, pos + part.len()) == part,
        uint_at(part, 0, 4, order) == part.len(),
    ensures
        ({
            let rest = listed_at(buf, pos + part.len(), (count - 1) as nat, order);
            listed_at(buf, pos, count, order) == (match described(part, order) {
                Some(e) => seq![e] + rest,
                None => rest,
            })
        }),
{
    reveal(described);
    reveal(listed_at);
    assert(buf.subrange(pos, pos + 4) =~= part.subrange(0, 4)) by {
        assert forall|j: int| 0 <= j < 4 implies buf[pos + j] == part[j] by {
            assert(buf.subrange(pos, pos + part.len())[j] == part[j]);
        }
    }
    assert(bulk_len(buf, pos, order) == part.len());
}

proof fn lemma_no_bulk_record(buf: Seq<u8>, pos: int, count: nat, order: ByteOrder)
    requires
        count == 0 || is_no_record_at(buf, pos, order),
    ensures
        listed_at(buf, pos, count, order) == Seq::<RawEntry>::empty(),
{
    reveal(listed_at);
}

proof fn lemma_bulk_records(
    buf: Seq<u8>,
    parts: Seq<Seq<u8>>,
    more: nat,
    order: ByteOrder,
    from: int,
)
    requires
        holds_records(buf, parts, order),
        0 <= from <= parts.len(),
        more == 0 || is_no_record_at(buf, start_of(parts, parts.len() as int), order),
    ensures
        listed_at(buf, start_of(parts, from), (parts.len() - from + more) as nat, order)
            == described_from(parts, |part: Seq<u8>| described(part, order), from),
    decreases parts.len() - from,
{
    if from < parts.len() {
        lemma_start(parts, from);
        assert(start_of(parts, from + 1) == start_of(parts, from) + parts[from].len());
        lemma_first_bulk_record(
            buf,
            start_of(parts, from),
            (parts.len() - from + more) as nat,
            order,
            parts[from],
        );
        lemma_bulk_records(buf, parts, more, order, from + 1);
    } else {
        lemma_no_bulk_record(buf, start_of(parts, from), more, order);
    }
}

proof fn lemma_start(parts: Seq<Seq<u8>>, n: int)
    ensures
        start_of(parts, n) >= 0,
    decreases n,
{
    if n > 0 {
        lemma_start(parts, n - 1);
    }
}

proof fn lemma_described_grows(
    parts: Seq<Seq<u8>>,
    read: spec_fn(Seq<u8>) -> Option<RawEntry>,
    a: int,
    b: int,
)
    requires
        a <= b,
    ensures
        described_before(parts, read, a) <= described_before(parts, read, b),
    decreases b - a,
{
    if a < b {
        lemma_described_grows(parts, read, a, b - 1);
    }
}

/// Every record that describes an entry is listed, in order; one that describes
/// none is passed over, and does not end the listing. It ends after as many
/// records as were announced, or where no record follows.
pub proof fn law_every_bulk_record_is_listed(
    buf: &[u8],
    count: usize,
    order: ByteOrder,
    listed: Vec<RawDirEntry>,
    parts: Seq<Seq<u8>>,
    i: int,
)
    requires
        call_ensures(parse_bulk_buffer, (buf, count, order), listed),
        holds_records(buf@, parts, order),
        count == parts.len() || (count > parts.len() && is_no_record_at(
            buf@,
            start_of(parts, parts.len() as int),
            order,
        )),
        0 <= i < parts.len(),
    ensures
        ({
            let read = |part: Seq<u8>| bulk_record(part, order);
            let at = described_before(parts, read, i) as int;
            &&& listed@.len() == described_before(parts, read, parts.len() as int)
            &&& read(parts[i]) matches Some(e) ==> at < listed@.len() && listed@[at]@ == e
        }),
{
    let read = |part: Seq<u8>| bulk_record(part, order);
    assert(read =~= |part: Seq<u8>| described(part, order)) by {
        reveal(described);
    }
    reveal(listed_at);
    lemma_bulk_records(buf@, parts, (count - parts.len()) as nat, order, 0);
    lemma_described(parts, read, 0, i);
    let views = listing(listed@);
    assert(views.len() == listed@.len());
    assert forall|k: int| 0 <= k < views.len() implies views[k] == (#[trigger] listed@[k])@ by {}
}

/// A negative count is a failure, none is the end of the directory, and any other
/// gives the entries of that many records.
pub proof fn law_rounds_end_with_nothing(
    buf: &[u8],
    n: i32,
    error: IoError,
    order: ByteOrder,
    round: Result<Option<Vec<RawDirEntry>>, SysError>,
)
    requires
        call_ensures(read_dir_raw, (buf, n, error, order), round),
    ensures
        n < 0 ==> round is Err && round->Err_0 == SysError::Io(error),
        n == 0 ==> round is Ok && round->Ok_0 is None,
        n > 0 ==> round is Ok && round->Ok_0 is Some && listing(round->Ok_0->Some_0@)
            == bulk_records(buf@, 0, n as nat, order),
{
}

} // verus!
