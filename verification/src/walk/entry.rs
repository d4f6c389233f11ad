//! The entries that a walk finds.
use crate::sys::FileType;
use vstd::prelude::*;

verus! {

#[derive(Debug, Clone)]
pub struct DirEntry {
    pub path: Vec<u8>,
    pub depth: u16,
    pub file_type: FileType,
    pub ino: u64,
    pub apparent_size: Option<u64>,
    pub disk_usage: Option<u64>,
    pub dev: u64,
    pub nlink: Option<u32>,
}

/// What a [`DirEntry`] says.
#[verifier::ext_equal]
pub struct Entry {
    pub path: Seq<u8>,
    pub depth: u16,
    pub file_type: FileType,
    pub ino: u64,
    pub apparent_size: Option<u64>,
    pub disk_usage: Option<u64>,
    pub dev: u64,
    pub nlink: Option<u32>,
}

impl View for DirEntry {
    type V = Entry;

    open spec fn view(&self) -> Entry {
        Entry {
            path: self.path@,
            depth: self.depth,
            file_type: self.file_type,
            ino: self.ino,
            apparent_size: self.apparent_size,
            disk_usage: self.disk_usage,
            dev: self.dev,
            nlink: self.nlink,
        }
    }
}

/// The depth of the entries of a directory at `depth`.
pub open spec fn depth_below(depth: u16) -> u16 {
    if depth == u16::MAX {
        u16::MAX
    } else {
        (depth + 1) as u16
    }
}

/// The depth of the entries of a directory at `depth`.
pub fn next_depth(depth: u16) -> (below: u16)
    ensures
        below == depth_below(depth),
{
    if depth == u16::MAX {
        u16::MAX
    } else {
        depth + 1
    }
}

impl DirEntry {
    pub fn from_parts(
        path: Vec<u8>,
        depth: u16,
        file_type: FileType,
        ino: u64,
        apparent_size: Option<u64>,
        disk_usage: Option<u64>,
        dev: u64,
        nlink: Option<u32>,
    ) -> (entry: Self)
        ensures
            entry@ == (Entry {
                path: path@,
                depth,
                file_type,
                ino,
                apparent_size,
                disk_usage,
                dev,
                nlink,
            }),
    {
        DirEntry { path, depth, file_type, ino, apparent_size, disk_usage, dev, nlink }
    }

    pub fn path_bytes(&self) -> (path: &[u8])
        ensures
            path@ == self@.path,
    {
        self.path.as_slice()
    }

    pub fn is_dir(&self) -> (dir: bool)
        ensures
            dir == (self@.file_type == FileType::Directory),
    {
        self.file_type == FileType::Directory
    }

    pub fn is_file(&self) -> (file: bool)
        ensures
            file == (self@.file_type == FileType::File),
    {
        self.file_type == FileType::File
    }
}

} // verus!
