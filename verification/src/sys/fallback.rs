//! Other Unix systems: directories are known by numbers that stand for paths.
use crate::bytes::copy_bytes;
use crate::paths::{child_path, join_child, SLASH};
use crate::sys::{
    dot_name, is_dot_name, FileType, IoError, RawDirEntry, RawEntry, SysError,
};
use std::collections::HashMap;
use vstd::prelude::*;

verus! {

broadcast use vstd::std_specs::hash::group_hash_axioms;

/// The first number that stands for an open directory.
pub const FIRST_FD: i32 = 1000;

/// The size of the buffer that a worker would read directory listings into.
pub const FALLBACK_BUF_SIZE: usize = 65536;

/// The open directories.
pub struct FdRegistry {
    pub map: HashMap<i32, Vec<u8>>,
    pub next_fd: i32,
}

impl View for FdRegistry {
    type V = Map<i32, Seq<u8>>;

    open spec fn view(&self) -> Map<i32, Seq<u8>> {
        self.map@.map_values(|p: Vec<u8>| p@)
    }
}

/// What a registry knows: the open directories, and the next number.
#[verifier::ext_equal]
pub struct Registered {
    pub open: Map<i32, Seq<u8>>,
    pub next: int,
}

/// A call that can change what is open.
pub enum FdCall {
    /// A path is opened; `is_dir` tells whether it could be looked at and is a
    /// directory.
    Open { path: Seq<u8>, is_dir: bool },
    Close(i32),
}

/// The number that a call gives out.
pub open spec fn number_given(before: Registered, call: FdCall) -> Option<int> {
    match call {
        FdCall::Open { is_dir: true, .. } => Some(before.next),
        _ => None,
    }
}

/// What is registered after a call. One that fails changes nothing.
pub open spec fn registered_after(before: Registered, call: FdCall) -> Registered {
    match call {
        FdCall::Open { path, is_dir } => if is_dir {
            Registered {
                open: before.open.insert(before.next as i32, path),
                next: before.next + 1,
            }
        } else {
            before
        },
        FdCall::Close(fd) => Registered { open: before.open.remove(fd), ..before },
    }
}

/// Where a path leads from a directory: an absolute one does not depend on it.
pub open spec fn resolved(dir: Seq<u8>, path: Seq<u8>) -> Seq<u8> {
    if path.len() > 0 && path[0] == SLASH {
        path
    } else {
        child_path(dir, path)
    }
}

/// The error for a number that stands for no open directory.
pub open spec fn is_invalid_fd(error: SysError) -> bool {
    error matches SysError::Io(io) && {
        &&& io.code is None
        &&& io.text@ == "Custom { kind: InvalidInput, error: \"invalid fd\" }"@
    }
}

/// The error for a path that leads to something else than a directory.
pub open spec fn is_not_a_directory(error: SysError) -> bool {
    error matches SysError::Io(io) && {
        &&& io.code is None
        &&& io.text@ == "Custom { kind: NotADirectory, error: \"not a directory\" }"@
    }
}

fn invalid_fd() -> (error: SysError)
    ensures
        is_invalid_fd(error),
{
    SysError::Io(
        IoError {
            code: None,
            text: String::from_str("Custom { kind: InvalidInput, error: \"invalid fd\" }"),
        },
    )
}

/// Follows a path from a directory.
pub fn resolve_path(dir: &[u8], path: &[u8]) -> (target: Vec<u8>)
    ensures
        target@ == resolved(dir@, path@),
{
    if path.len() > 0 && path[0] == SLASH {
        copy_bytes(path)
    } else {
        join_child(dir, path)
    }
}

impl FdRegistry {
    /// No number from `next_fd` on has been given out.
    pub open spec fn wf(&self) -> bool {
        &&& FIRST_FD <= self.next_fd
        &&& forall|fd: i32| #[trigger] self@.contains_key(fd) ==> FIRST_FD <= fd < self.next_fd
    }

    pub open spec fn registered(&self) -> Registered {
        Registered { open: self@, next: self.next_fd as int }
    }

    pub fn new() -> (registry: Self)
        ensures
            registry.wf(),
            registry.registered() == nothing_registered(),
    {
        let registry = FdRegistry { map: HashMap::new(), next_fd: FIRST_FD };
        assert(registry@ =~= Map::<i32, Seq<u8>>::empty());
        registry
    }

    /// The path of an open directory.
    pub fn dir_path(&self, fd: i32) -> (path: Result<Vec<u8>, SysError>)
        ensures
            match path {
                Ok(p) => self@.contains_key(fd) && p@ == self@[fd],
                Err(e) => !self@.contains_key(fd) && is_invalid_fd(e),
            },
    {
        match self.map.get(&fd) {
            Some(p) => Ok(copy_bytes(p.as_slice())),
            None => Err(invalid_fd()),
        }
    }

    /// The path that is opened for `path` relative to `parent_fd`. The parent
    /// does not matter to an absolute path.
    pub fn resolve(&self, parent_fd: Option<i32>, path: &[u8]) -> (target: Result<
        Vec<u8>,
        SysError,
    >)
        ensures
            match parent_fd {
                Some(fd) if !(path@.len() > 0 && path@[0] == SLASH) => match target {
                    Ok(p) => self@.contains_key(fd) && p@ == resolved(self@[fd], path@),
                    Err(e) => !self@.contains_key(fd) && is_invalid_fd(e),
                },
                _ => target is Ok && target->Ok_0@ == path@,
            },
    {
        let absolute = path.len() > 0 && path[0] == SLASH;
        match parent_fd {
            Some(fd) => {
                if absolute {
                    Ok(copy_bytes(path))
                } else {
                    match self.dir_path(fd) {
                        Ok(dir) => Ok(resolve_path(dir.as_slice(), path)),
                        Err(e) => Err(e),
                    }
                }
            },
            None => Ok(copy_bytes(path)),
        }
    }

    /// Opens the directory at `path`, where `is_dir` is what the file system
    /// says about it: gives it the next number.
    pub fn open_dir(&mut self, path: Vec<u8>, is_dir: Result<bool, IoError>) -> (opened: Result<
        i32,
        SysError,
    >)
        requires
            old(self).wf(),
            old(self).next_fd < i32::MAX,
        ensures
            final(self).wf(),
            final(self).registered() == registered_after(
                old(self).registered(),
                FdCall::Open { path: path@, is_dir: is_dir == Ok::<bool, IoError>(true) },
            ),
            match is_dir {
                Err(e) => opened == Err::<i32, SysError>(SysError::Io(e)),
                Ok(false) => opened is Err && is_not_a_directory(opened->Err_0),
                Ok(true) => opened == Ok::<i32, SysError>(old(self).next_fd),
            },
    {
        match is_dir {
            Err(e) => Err(SysError::Io(e)),
            Ok(dir) => {
                if dir {
                    let fd: i32 = self.next_fd;
                    self.next_fd = fd + 1;
                    let ghost kept = path@;
                    self.map.insert(fd, path);
                    assert(self@ =~= old(self)@.insert(fd, kept));
                    Ok(fd)
                } else {
                    Err(
                        SysError::Io(
                            IoError {
                                code: None,
                                text: String::from_str(
                                    "Custom { kind: NotADirectory, error: \"not a directory\" }",
                                ),
                            },
                        ),
                    )
                }
            },
        }
    }

    /// The path to ask about for the entry `name` of an open directory: `.`
    /// is the directory itself.
    pub fn entry_path(&self, dir_fd: i32, name: &[u8]) -> (path: Result<Vec<u8>, SysError>)
        ensures
            match path {
                Ok(p) => self@.contains_key(dir_fd) && p@ == (if name@ == seq![46u8] {
                    self@[dir_fd]
                } else {
                    resolved(self@[dir_fd], name@)
                }),
                Err(e) => !self@.contains_key(dir_fd) && is_invalid_fd(e),
            },
    {
        match self.dir_path(dir_fd) {
            Ok(dir) => {
                if name.len() == 1 && name[0] == 46 {
                    assert(name@ =~= seq![46u8]);
                    Ok(dir)
                } else {
                    Ok(resolve_path(dir.as_slice(), name))
                }
            },
            Err(e) => Err(e),
        }
    }

    /// Forgets an open directory.
    pub fn close_fd(&mut self, fd: i32)
        requires
            old(self).wf(),
        ensures
            final(self).wf(),
            final(self).registered() == registered_after(
                old(self).registered(),
                FdCall::Close(fd),
            ),
    {
        self.map.remove(&fd);
        assert(self@ =~= old(self)@.remove(fd));
    }
}

/// Before the first call.
pub open spec fn nothing_registered() -> Registered {
    Registered { open: Map::empty(), next: FIRST_FD as int }
}

/// What is registered after the first `n` calls.
pub open spec fn registered_at(calls: Seq<FdCall>, n: int) -> Registered
    decreases n,
{
    if n <= 0 {
        nothing_registered()
    } else {
        registered_after(registered_at(calls, n - 1), calls[n - 1])
    }
}

/// The number that the call at `i` gives out.
pub open spec fn number_at(calls: Seq<FdCall>, i: int) -> Option<int> {
    number_given(registered_at(calls, i), calls[i])
}

/// How many of the first `n` calls opened a directory.
pub open spec fn opened_count(calls: Seq<FdCall>, n: int) -> nat
    decreases n,
{
    if n <= 0 {
        0
    } else {
        opened_count(calls, n - 1) + if number_at(calls, n - 1) is Some {
            1nat
        } else {
            0
        }
    }
}

proof fn lemma_next_number(calls: Seq<FdCall>, n: int)
    requires
        0 <= n,
    ensures
        registered_at(calls, n).next == FIRST_FD + opened_count(calls, n),
    decreases n,
{
    if n > 0 {
        lemma_next_number(calls, n - 1);
    }
}

proof fn lemma_next_number_grows(calls: Seq<FdCall>, i: int, j: int)
    requires
        0 <= i <= j,
    ensures
        registered_at(calls, i).next <= registered_at(calls, j).next,
    decreases j - i,
{
    if i < j {
        lemma_next_number_grows(calls, i, j - 1);
    }
}

/// The numbers of the directories that were opened, whatever was closed in
/// between: the first one is [`FIRST_FD`], each later one is one more than the
/// one before, and so none is given out twice. A call that fails uses up no
/// number.
pub proof fn law_numbers_are_not_reused(calls: Seq<FdCall>, i: int, j: int)
    requires
        0 <= i < j < calls.len(),
        number_at(calls, i) is Some,
        number_at(calls, j) is Some,
    ensures
        number_at(calls, i) == Some(FIRST_FD + opened_count(calls, i)),
        number_at(calls, j) == Some(FIRST_FD + opened_count(calls, j)),
        number_at(calls, i)->Some_0 < number_at(calls, j)->Some_0,
        opened_count(calls, j) == opened_count(calls, i + 1) ==> number_at(calls, j)->Some_0
            == number_at(calls, i)->Some_0 + 1,
{
    lemma_next_number(calls, i);
    lemma_next_number(calls, j);
    lemma_next_number_grows(calls, i + 1, j);
}

/// Closing a directory undoes opening it: the open directories are those of
/// before. Its number is not given out again.
pub proof fn law_close_undoes_open(before: Registered, path: Seq<u8>)
    requires
        i32::MIN <= before.next <= i32::MAX,
        !before.open.contains_key(before.next as i32),
    ensures
        ({
            let opened = registered_after(before, FdCall::Open { path, is_dir: true });
            let closed = registered_after(opened, FdCall::Close(before.next as i32));
            closed == Registered { next: before.next + 1, ..before }
        }),
{
    let opened = registered_after(before, FdCall::Open { path, is_dir: true });
    let closed = registered_after(opened, FdCall::Close(before.next as i32));
    assert(closed =~= Registered { next: before.next + 1, ..before });
}

/// The kind of file, from what the file system answers to three questions.
pub open spec fn answered_kind(is_dir: bool, is_file: bool, is_symlink: bool) -> FileType {
    if is_dir {
        FileType::Directory
    } else if is_file {
        FileType::File
    } else if is_symlink {
        FileType::Symlink
    } else {
        FileType::Other
    }
}

pub fn file_kind(is_dir: bool, is_file: bool, is_symlink: bool) -> (kind: FileType)
    ensures
        kind == answered_kind(is_dir, is_file, is_symlink),
{
    if is_dir {
        FileType::Directory
    } else if is_file {
        FileType::File
    } else if is_symlink {
        FileType::Symlink
    } else {
        FileType::Other
    }
}

/// One entry of a listing, from its name, its kind where the file system told
/// it, and its inode number and size where they could be had. `.` and `..` are
/// left out.
pub fn listed_entry(
    name: Vec<u8>,
    kind: Option<FileType>,
    numbers: Option<(u64, u64)>,
) -> (entry: Option<RawDirEntry>)
    ensures
        is_dot_name(name@) ==> entry is None,
        !is_dot_name(name@) ==> entry is Some && entry->Some_0@ == (RawEntry {
            name: name@,
            file_type: match kind {
                Some(k) => k,
                None => FileType::Unknown,
            },
            ino: match numbers {
                Some(n) => n.0,
                None => 0,
            },
            size: match numbers {
                Some(n) => Some(n.1),
                None => None,
            },
            alloc_size: None,
            dev: None,
            nlink: None,
        }),
{
    if dot_name(name.as_slice()) {
        return None;
    }
    let file_type = match kind {
        Some(k) => k,
        None => FileType::Unknown,
    };
    let (ino, size): (u64, Option<u64>) = match numbers {
        Some((ino, size)) => (ino, Some(size)),
        None => (0, None),
    };
    Some(
        RawDirEntry { name, file_type, ino, size, alloc_size: None, dev: None, nlink: None },
    )
}

/// Opening a directory gives it the next number, under which its path is known
/// from then on; what was open stays so. Anything else changes nothing, and is an
/// error.
pub proof fn law_opened_directories_are_known(
    registry: &mut FdRegistry,
    path: Vec<u8>,
    is_dir: Result<bool, IoError>,
    opened: Result<i32, SysError>,
)
    requires
        old(registry).wf(),
        old(registry).next_fd < i32::MAX,
        call_ensures(FdRegistry::open_dir, (registry, path, is_dir), opened),
    ensures
        is_dir == Ok::<bool, IoError>(true) ==> {
            &&& opened == Ok::<i32, SysError>(old(registry).next_fd)
            &&& final(registry).next_fd == old(registry).next_fd + 1
            &&& final(registry)@.contains_key(old(registry).next_fd)
            &&& final(registry)@[old(registry).next_fd] == path@
            &&& forall|fd: i32| #[trigger]
                old(registry)@.contains_key(fd) ==> {
                    &&& final(registry)@.contains_key(fd)
                    &&& final(registry)@[fd] == old(registry)@[fd]
                }
        },
        is_dir != Ok::<bool, IoError>(true) ==> {
            &&& opened is Err
            &&& final(registry)@ == old(registry)@
            &&& final(registry).next_fd == old(registry).next_fd
        },
        is_dir matches Err(e) ==> opened->Err_0 == SysError::Io(e),
{
    let before = old(registry).registered();
    let after = final(registry).registered();
    assert(after.open == final(registry)@ && before.open == old(registry)@);
    assert(after.next == final(registry).next_fd && before.next == old(registry).next_fd);
}

/// Closing a directory makes its number stand for nothing, and leaves the others
/// open.
pub proof fn law_closed_directories_are_forgotten(registry: &mut FdRegistry, fd: i32, other: i32)
    requires
        old(registry).wf(),
        call_ensures(FdRegistry::close_fd, (registry, fd), ()),
    ensures
        !final(registry)@.contains_key(fd),
        other != fd ==> final(registry)@.contains_key(other) == old(registry)@.contains_key(other),
        other != fd && old(registry)@.contains_key(other) ==> {
            final(registry)@[other] == old(registry)@[other]
        },
        final(registry).next_fd == old(registry).next_fd,
{
    let before = old(registry).registered();
    let after = final(registry).registered();
    assert(after.open == final(registry)@ && before.open == old(registry)@);
    assert(after.next == final(registry).next_fd && before.next == old(registry).next_fd);
}

/// A path is opened as it stands where there is no parent or it starts with a
/// slash; otherwise below the path that the parent stands for, if it stands for
/// one.
pub proof fn law_paths_are_resolved(
    registry: &FdRegistry,
    parent_fd: Option<i32>,
    path: &[u8],
    target: Result<Vec<u8>, SysError>,
)
    requires
        call_ensures(FdRegistry::resolve, (registry, parent_fd, path), target),
    ensures
        parent_fd is None ==> target is Ok && target->Ok_0@ == path@,
        path@.len() > 0 && path@[0] == 47 ==> target is Ok && target->Ok_0@ == path@,
        parent_fd matches Some(fd) ==> (path@.len() == 0 || path@[0] != 47
            ==> if registry@.contains_key(fd) {
            target is Ok && target->Ok_0@ == child_path(registry@[fd], path@)
        } else {
            target is Err
        }),
{
}

/// The entries of an open directory lie below its path; a single dot is the
/// directory itself.
pub proof fn law_entries_lie_below_directories(
    registry: &FdRegistry,
    dir_fd: i32,
    name: &[u8],
    path: Result<Vec<u8>, SysError>,
)
    requires
        call_ensures(FdRegistry::entry_path, (registry, dir_fd, name), path),
    ensures
        path is Ok == registry@.contains_key(dir_fd),
        path is Ok && name@ == seq![46u8] ==> path->Ok_0@ == registry@[dir_fd],
        path is Ok && name@ != seq![46u8] && (name@.len() == 0 || name@[0] != 47)
            ==> path->Ok_0@ == child_path(registry@[dir_fd], name@),
{
}

/// A kind of file is told by the first question that the file system affirms:
/// directory, file, link.
pub proof fn law_kinds_are_told(is_dir: bool, is_file: bool, is_symlink: bool, kind: FileType)
    requires
        call_ensures(file_kind, (is_dir, is_file, is_symlink), kind),
    ensures
        kind == FileType::Directory <==> is_dir,
        kind == FileType::File <==> !is_dir && is_file,
        kind == FileType::Symlink <==> !is_dir && !is_file && is_symlink,
        kind != FileType::Unknown,
{
}

/// Every entry but the directory itself and its parent is listed, whatever else
/// its name starts with, with what is known of it.
pub proof fn law_named_entries_are_listed(
    name: Vec<u8>,
    kind: Option<FileType>,
    numbers: Option<(u64, u64)>,
    entry: Option<RawDirEntry>,
)
    requires
        call_ensures(listed_entry, (name, kind, numbers), entry),
    ensures
        entry is None <==> name@ == seq![46u8] || name@ == seq![46u8, 46u8],
        entry matches Some(e) ==> {
            &&& e.name@ == name@
            &&& e.file_type == (if kind is Some {
                kind->Some_0
            } else {
                FileType::Unknown
            })
            &&& numbers matches Some(n) ==> e.ino == n.0 && e.size == Some(n.1)
            &&& numbers is None ==> e.size is None
            &&& e.alloc_size is None && e.dev is None && e.nlink is None
        },
{
    if let Some(e) = entry {
        assert(e@.name == e.name@);
    }
}

} // verus!
