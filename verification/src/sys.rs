//! What the operating system reports about files and directories.
use vstd::prelude::*;

pub mod fallback;
pub mod linux;
pub mod macos;

verus! {

#[derive(Debug, Clone, Copy, PartialEq, Eq, Structural)]
pub enum FileType {
    File,
    Directory,
    Symlink,
    Unknown,
    Other,
}

/// One entry of a directory listing. A platform leaves out what its listing
/// call does not report.
#[derive(Debug, Clone)]
pub struct RawDirEntry {
    pub name: Vec<u8>,
    pub file_type: FileType,
    pub ino: u64,
    pub size: Option<u64>,
    pub alloc_size: Option<u64>,
    pub dev: Option<u64>,
    pub nlink: Option<u32>,
}

/// What a [`RawDirEntry`] says.
#[verifier::ext_equal]
pub struct RawEntry {
    pub name: Seq<u8>,
    pub file_type: FileType,
    pub ino: u64,
    pub size: Option<u64>,
    pub alloc_size: Option<u64>,
    pub dev: Option<u64>,
    pub nlink: Option<u32>,
}

impl View for RawDirEntry {
    type V = RawEntry;

    open spec fn view(&self) -> RawEntry {
        RawEntry {
            name: self.name@,
            file_type: self.file_type,
            ino: self.ino,
            size: self.size,
            alloc_size: self.alloc_size,
            dev: self.dev,
            nlink: self.nlink,
        }
    }
}

/// The listing that a vector of entries stands for.
pub open spec fn listing(entries: Seq<RawDirEntry>) -> Seq<RawEntry> {
    entries.map_values(|e: RawDirEntry| e@)
}

/// The names by which a directory refers to itself and to its parent.
pub open spec fn is_dot_name(name: Seq<u8>) -> bool {
    name == seq![46u8] || name == seq![46u8, 46u8]
}

/// Whether a name is `.` or `..`.
pub fn dot_name(name: &[u8]) -> (dot: bool)
    ensures
        dot == is_dot_name(name@),
{
    let len: usize = name.len();
    let dot = (len == 1 && name[0] == 46) || (len == 2 && name[0] == 46 && name[1] == 46);
    proof {
        if dot {
            assert(name@ =~= seq![46u8] || name@ =~= seq![46u8, 46u8]);
        }
    }
    dot
}

#[derive(Debug, Clone, Copy, PartialEq, Eq, Structural)]
pub struct EntryMetadata {
    pub ino: u64,
    pub dev: u64,
    pub size: u64,
    pub blocks: u64,
    pub alloc_size: u64,
    pub file_type: FileType,
    pub nlink: u32,
}

/// A failed operation of the operating system: the error number, where there
/// is one, and how the error prints.
#[derive(Debug)]
pub struct IoError {
    pub code: Option<i32>,
    pub text: String,
}

#[derive(Debug)]
pub enum SysError {
    Io(IoError),
    NeedsStat,
    BufferTooSmall,
}

impl From<IoError> for SysError {
    fn from(e: IoError) -> (error: Self) {
        SysError::Io(e)
    }
}

impl vstd::std_specs::convert::FromSpecImpl<IoError> for SysError {
    open spec fn obeys_from_spec() -> bool {
        true
    }

    open spec fn from_spec(e: IoError) -> Self {
        SysError::Io(e)
    }
}

/// The type bits of a Unix file mode, and what they can say.
pub const S_IFMT: u16 = 0o170000;

pub const S_IFREG: u16 = 0o100000;

pub const S_IFDIR: u16 = 0o040000;

pub const S_IFLNK: u16 = 0o120000;

/// The kind of file that a Unix mode describes: its top four bits decide.
pub open spec fn mode_kind(mode: u16) -> FileType {
    if mode / 0o10000 == 0o10 {
        FileType::File
    } else if mode / 0o10000 == 0o4 {
        FileType::Directory
    } else if mode / 0o10000 == 0o12 {
        FileType::Symlink
    } else {
        FileType::Other
    }
}

/// Reads the kind of file out of a Unix mode.
pub fn mode_to_file_type(mode: u16) -> (kind: FileType)
    ensures
        kind == mode_kind(mode),
{
    let bits: u16 = mode & S_IFMT;
    assert(mode & 0o170000 == 0o100000 <==> mode / 0o10000 == 0o10) by (bit_vector);
    assert(mode & 0o170000 == 0o040000 <==> mode / 0o10000 == 0o4) by (bit_vector);
    assert(mode & 0o170000 == 0o120000 <==> mode / 0o10000 == 0o12) by (bit_vector);
    if bits == S_IFREG {
        FileType::File
    } else if bits == S_IFDIR {
        FileType::Directory
    } else if bits == S_IFLNK {
        FileType::Symlink
    } else {
        FileType::Other
    }
}

/// What a caller of `openat` learns from its return value: a negative one is a
/// failure, any other the descriptor.
pub fn openat_outcome(rc: i32, error: IoError) -> (opened: Result<i32, SysError>)
    ensures
        opened == (if rc < 0 {
            Err::<i32, SysError>(SysError::Io(error))
        } else {
            Ok(rc)
        }),
{
    if rc < 0 {
        Err(SysError::Io(error))
    } else {
        Ok(rc)
    }
}

/// What a caller of a `stat` call learns from its return value: a negative one
/// is a failure, and gives the error to report.
pub fn stat_outcome(rc: i32, error: IoError) -> (failed: Option<SysError>)
    ensures
        failed == (if rc < 0 {
            Some(SysError::Io(error))
        } else {
            None
        }),
{
    if rc < 0 {
        Some(SysError::Io(error))
    } else {
        None
    }
}

/// Bytes per block in the block counts that the system reports.
pub const BLOCK_SIZE: u64 = 512;

/// The metadata of an entry, from the fields of a `stat` result.
pub fn entry_metadata(
    ino: u64,
    dev: u64,
    size: u64,
    blocks: u64,
    file_type: FileType,
    nlink: u32,
) -> (meta: EntryMetadata)
    requires
        blocks * BLOCK_SIZE <= u64::MAX,
    ensures
        meta == (EntryMetadata {
            ino,
            dev,
            size,
            blocks,
            alloc_size: (blocks * BLOCK_SIZE) as u64,
            file_type,
            nlink,
        }),
{
    EntryMetadata { ino, dev, size, blocks, alloc_size: blocks * BLOCK_SIZE, file_type, nlink }
}

/// The names that are left out of a listing are `.` and `..`, and no others.
pub proof fn law_dot_names(name: &[u8], dot: bool)
    requires
        call_ensures(dot_name, (name,), dot),
    ensures
        dot <==> (name@.len() == 1 || name@.len() == 2) && forall|i: int|
            0 <= i < name@.len() ==> name@[i] == 46,
{
    if (name@.len() == 1 || name@.len() == 2) && forall|i: int|
        0 <= i < name@.len() ==> name@[i] == 46 {
        assert(name@ =~= seq![46u8] || name@ =~= seq![46u8, 46u8]);
    }
}

/// The type of a file stands in the top four bits of its mode, whatever the
/// permissions below them are.
pub proof fn law_modes_tell_types(mode: u16, kind: FileType)
    requires
        call_ensures(mode_to_file_type, (mode,), kind),
    ensures
        kind == FileType::File <==> 0o100000 <= mode < 0o110000,
        kind == FileType::Directory <==> 0o040000 <= mode < 0o050000,
        kind == FileType::Symlink <==> 0o120000 <= mode < 0o130000,
        kind != FileType::Unknown,
{
}

/// Metadata keeps the fields that it is made of, and the allocated size is that of
/// the blocks, of 512 bytes each.
pub proof fn law_blocks_are_allocated(
    ino: u64,
    dev: u64,
    size: u64,
    blocks: u64,
    file_type: FileType,
    nlink: u32,
    meta: EntryMetadata,
)
    requires
        call_ensures(entry_metadata, (ino, dev, size, blocks, file_type, nlink), meta),
        512 * blocks <= u64::MAX,
    ensures
        meta.alloc_size == 512 * blocks,
        meta.size == size,
        meta.blocks == blocks,
        meta.ino == ino,
        meta.dev == dev,
        meta.file_type == file_type,
        meta.nlink == nlink,
{
}

/// A negative return value is a failure, and no other is.
pub proof fn law_negative_values_are_failures(
    rc: i32,
    error: IoError,
    opened: Result<i32, SysError>,
    failed: Option<SysError>,
)
    requires
        call_ensures(openat_outcome, (rc, error), opened),
        call_ensures(stat_outcome, (rc, error), failed),
    ensures
        rc < 0 ==> opened is Err && opened->Err_0 == SysError::Io(error),
        rc >= 0 ==> opened is Ok && opened->Ok_0 == rc,
        rc < 0 ==> failed is Some && failed->Some_0 == SysError::Io(error),
        rc >= 0 ==> failed is None,
{
}

} // verus!
