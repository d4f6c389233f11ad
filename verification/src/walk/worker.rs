//! What a worker decides while it reads a directory.
use crate::bytes::{copy_bytes, find_byte};
use crate::paths::{child_path, has_prefix, join_child, lemma_child_keeps_root};
use crate::sys::{EntryMetadata, FileType, IoError, RawDirEntry, RawEntry, SysError};
use crate::walk::entry::{depth_below, next_depth, DirEntry, Entry};
use crate::walk::error::{
    failure_kind, map_sys_error, Failure, FailureKind, WalkError, WalkErrorKind,
};
use vstd::prelude::*;

verus! {

/// A directory that is still to be read.
#[derive(Debug)]
pub struct WorkItem {
    pub path: Vec<u8>,
    pub depth: u16,
    pub root_dev: u64,
}

/// What a [`WorkItem`] says.
#[verifier::ext_equal]
pub struct Work {
    pub path: Seq<u8>,
    pub depth: u16,
    pub root_dev: u64,
}

impl View for WorkItem {
    type V = Work;

    open spec fn view(&self) -> Work {
        Work { path: self.path@, depth: self.depth, root_dev: self.root_dev }
    }
}

/// The parts of a walk's configuration that every directory depends on.
#[derive(Debug, Clone, Copy, PartialEq, Eq, Structural)]
pub struct WalkRules {
    pub follow_symlinks: bool,
    pub same_filesystem: bool,
    pub max_depth: usize,
}

/// Whether directories at `depth` are read: with a limit, those above it.
pub open spec fn depth_allowed(rules: WalkRules, depth: u16) -> bool {
    rules.max_depth == 0 || depth < rules.max_depth
}

/// What a walk reports where the system refused a directory.
pub open spec fn failure(path: Seq<u8>, depth: u16, error: SysError) -> Failure {
    Failure { path: Some(path), depth, kind: failure_kind(error) }
}

/// What a walk reports where a path holds a NUL byte.
pub open spec fn nul_failure(path: Seq<u8>, depth: u16) -> Failure {
    Failure {
        path: Some(path),
        depth,
        kind: FailureKind::Io {
            code: None,
            text: "Custom { kind: InvalidInput, error: \"path contains NUL byte\" }"@,
        },
    }
}

fn report_error(path: &[u8], depth: u16, error: SysError) -> (report: WalkError)
    ensures
        report@ == failure(path@, depth, error),
{
    WalkError { path: Some(copy_bytes(path)), depth, kind: map_sys_error(error) }
}

/// A path that holds a NUL byte cannot be handed to the system: the error that
/// says so, or `None` for any other path.
pub fn nul_path_error(path: &[u8], depth: u16) -> (report: Option<WalkError>)
    ensures
        report is Some <==> path@.contains(0u8),
        report matches Some(e) ==> e@ == nul_failure(path@, depth),
{
    let at: usize = find_byte(path, 0);
    proof {
        crate::bytes::lemma_first_position(path@, 0);
    }
    if at < path.len() {
        Some(
            WalkError {
                path: Some(copy_bytes(path)),
                depth,
                kind: WalkErrorKind::Io(
                    IoError {
                        code: None,
                        text: String::from_str(
                            "Custom { kind: InvalidInput, error: \"path contains NUL byte\" }",
                        ),
                    },
                ),
            },
        )
    } else {
        None
    }
}

/// The first directory of a walk below a root.
pub open spec fn seed(root: Seq<u8>, meta: EntryMetadata) -> Work {
    Work { path: root, depth: 0, root_dev: meta.dev }
}

/// Whether a directory on the device `dev` is read: with a walk that stays on
/// one file system, only where its root lies on that device too.
pub open spec fn device_allowed(rules: WalkRules, item: Work, dev: u64) -> bool {
    !rules.same_filesystem || dev == item.root_dev
}

/// The first directory of a walk, given what opening the root and asking for
/// its metadata gave.
pub fn seed_root(root: Vec<u8>, probe: Result<EntryMetadata, SysError>) -> (seeded: Result<
    WorkItem,
    WalkError,
>)
    ensures
        match probe {
            Ok(meta) => seeded is Ok && seeded->Ok_0@ == seed(root@, meta),
            Err(e) => seeded is Err && seeded->Err_0@ == failure(root@, 0, e),
        },
{
    match probe {
        Ok(meta) => Ok(WorkItem { path: root, depth: 0, root_dev: meta.dev }),
        Err(e) => Err(report_error(root.as_slice(), 0, e)),
    }
}

/// A directory that is being read.
#[derive(Debug)]
pub struct DirTask {
    pub item: WorkItem,
    pub rules: WalkRules,
    /// The device that the directory lies on.
    pub dev: u64,
    /// The names of the entries that will be read as directories.
    pub children: Vec<Vec<u8>>,
}

/// What becomes of a directory that was opened, or could not be.
pub enum DirStart {
    /// Nothing more can be done with it.
    Failed(WalkError),
    /// It lies on another file system than its root, and is left alone.
    OtherFilesystem,
    /// Its entries are read.
    Read(DirTask),
}

/// What follows once an entry has been handed on.
#[derive(Debug, Clone, Copy, PartialEq, Eq, Structural)]
pub enum AfterEmit {
    Nothing,
    /// The entry is a directory that is read in turn.
    Descend,
    /// The entry is read in turn if the link leads to a directory.
    CheckTarget,
}

/// What to do with an entry of a listing.
pub enum Look {
    /// Nothing: its name cannot be handed to the system.
    Skip,
    /// Ask for its metadata first.
    Stat,
    /// Hand it on.
    Emit(DirEntry, AfterEmit),
}

/// What a [`Look`] says.
pub enum Looked {
    Skip,
    Stat,
    Emit(Entry, AfterEmit),
}

impl View for Look {
    type V = Looked;

    open spec fn view(&self) -> Looked {
        match self {
            Look::Skip => Looked::Skip,
            Look::Stat => Looked::Stat,
            Look::Emit(entry, after) => Looked::Emit(entry@, *after),
        }
    }
}

/// The entry that a listing describes, as far as it says.
pub open spec fn listed_entry(item: Work, dev: u64, raw: RawEntry) -> Entry {
    Entry {
        path: child_path(item.path, raw.name),
        depth: depth_below(item.depth),
        file_type: raw.file_type,
        ino: raw.ino,
        apparent_size: raw.size,
        disk_usage: match raw.alloc_size {
            Some(size) => Some(size),
            None => raw.size,
        },
        dev: match raw.dev {
            Some(d) => d,
            None => dev,
        },
        nlink: raw.nlink,
    }
}

/// Whether the metadata of a listed entry has to be asked for: its type or its
/// size is missing. The size of directories and links does not matter.
pub open spec fn wants_metadata(raw: RawEntry) -> bool {
    match raw.file_type {
        FileType::Unknown => true,
        FileType::Directory => false,
        FileType::Symlink => false,
        _ => raw.size is None,
    }
}

/// The entry that the metadata describes. What the listing gave of an entry of
/// a known type stands: its type, its inode number and its device, which is
/// that of the directory where the listing does not say.
pub open spec fn stated_entry(item: Work, dev: u64, raw: RawEntry, meta: EntryMetadata) -> Entry {
    if raw.file_type == FileType::Unknown {
        Entry {
            path: child_path(item.path, raw.name),
            depth: depth_below(item.depth),
            file_type: meta.file_type,
            ino: meta.ino,
            apparent_size: Some(meta.size),
            disk_usage: Some(meta.alloc_size),
            dev: meta.dev,
            nlink: Some(meta.nlink),
        }
    } else {
        Entry {
            apparent_size: Some(meta.size),
            disk_usage: Some(meta.alloc_size),
            nlink: Some(meta.nlink),
            ..listed_entry(item, dev, raw)
        }
    }
}

/// The entry that is left where its metadata could not be had.
pub open spec fn unstated_entry(item: Work, dev: u64, raw: RawEntry) -> Entry {
    if raw.file_type == FileType::Unknown {
        Entry {
            path: child_path(item.path, raw.name),
            depth: depth_below(item.depth),
            file_type: FileType::Unknown,
            ino: raw.ino,
            apparent_size: None,
            disk_usage: None,
            dev,
            nlink: None,
        }
    } else {
        listed_entry(item, dev, raw)
    }
}

/// What follows an entry of a known type.
pub open spec fn after_listed(rules: WalkRules, item: Work, kind: FileType) -> AfterEmit {
    match kind {
        FileType::Directory => AfterEmit::Descend,
        FileType::Symlink => if rules.follow_symlinks && depth_allowed(
            rules,
            depth_below(item.depth),
        ) {
            AfterEmit::CheckTarget
        } else {
            AfterEmit::Nothing
        },
        _ => AfterEmit::Nothing,
    }
}

/// What to do with an entry of the listing of a directory on the device `dev`.
pub open spec fn looked(rules: WalkRules, item: Work, dev: u64, raw: RawEntry) -> Looked {
    if !wants_metadata(raw) {
        Looked::Emit(listed_entry(item, dev, raw), after_listed(rules, item, raw.file_type))
    } else if !raw.name.contains(0u8) {
        Looked::Stat
    } else if raw.file_type == FileType::Unknown {
        Looked::Skip
    } else {
        Looked::Emit(listed_entry(item, dev, raw), AfterEmit::Nothing)
    }
}

/// The entry that is handed on, and what follows it, once its metadata was
/// asked for.
pub open spec fn completed(
    item: Work,
    dev: u64,
    raw: RawEntry,
    stat: Option<EntryMetadata>,
) -> (Entry, AfterEmit) {
    match stat {
        Some(meta) => (
            stated_entry(item, dev, raw, meta),
            if raw.file_type == FileType::Unknown && meta.file_type == FileType::Directory {
                AfterEmit::Descend
            } else {
                AfterEmit::Nothing
            },
        ),
        None => (unstated_entry(item, dev, raw), AfterEmit::Nothing),
    }
}

/// Whether an entry that was handed on is read as a directory, given whether
/// its target is one.
pub open spec fn is_descended(after: AfterEmit, target_is_dir: bool) -> bool {
    match after {
        AfterEmit::Nothing => false,
        AfterEmit::Descend => true,
        AfterEmit::CheckTarget => target_is_dir,
    }
}

impl AfterEmit {
    /// Whether the entry is read as a directory, given whether its target is
    /// one.
    pub fn descends(self, target_is_dir: bool) -> (descends: bool)
        ensures
            descends == is_descended(self, target_is_dir),
    {
        match self {
            AfterEmit::Nothing => false,
            AfterEmit::Descend => true,
            AfterEmit::CheckTarget => target_is_dir,
        }
    }
}

/// The directories that a listing leads to.
pub open spec fn work_below(rules: WalkRules, item: Work, names: Seq<Seq<u8>>) -> Seq<Work> {
    if depth_allowed(rules, depth_below(item.depth)) {
        names.map_values(
            |name: Seq<u8>|
                Work {
                    path: child_path(item.path, name),
                    depth: depth_below(item.depth),
                    root_dev: item.root_dev,
                },
        )
    } else {
        Seq::empty()
    }
}

/// Starts on a directory, given what opening it and asking for its metadata
/// gave.
pub fn start_directory(
    item: WorkItem,
    rules: WalkRules,
    probe: Result<EntryMetadata, SysError>,
) -> (start: DirStart)
    ensures
        match probe {
            Err(e) => start is Failed && start->Failed_0@ == failure(item.path@, item.depth, e),
            Ok(meta) => if !device_allowed(rules, item@, meta.dev) {
                start is OtherFilesystem
            } else {
                &&& start is Read
                &&& start->Read_0.item@ == item@
                &&& start->Read_0.rules == rules
                &&& start->Read_0.dev == meta.dev
                &&& start->Read_0.children@.len() == 0
            },
        },
{
    match probe {
        Err(e) => DirStart::Failed(report_error(item.path.as_slice(), item.depth, e)),
        Ok(meta) => {
            if rules.same_filesystem && meta.dev != item.root_dev {
                DirStart::OtherFilesystem
            } else {
                DirStart::Read(DirTask { item, rules, dev: meta.dev, children: Vec::new() })
            }
        },
    }
}

impl DirTask {
    /// The directories that reading this one has led to so far.
    pub open spec fn work(&self) -> Seq<Work> {
        work_below(self.rules, self.item@, crate::paths::byte_strings(self.children@))
    }

    fn listed(&self, raw: &RawDirEntry) -> (entry: DirEntry)
        ensures
            entry@ == listed_entry(self.item@, self.dev, raw@),
    {
        let disk_usage = match raw.alloc_size {
            Some(size) => Some(size),
            None => raw.size,
        };
        let dev: u64 = match raw.dev {
            Some(d) => d,
            None => self.dev,
        };
        DirEntry::from_parts(
            join_child(self.item.path.as_slice(), raw.name.as_slice()),
            next_depth(self.item.depth),
            raw.file_type,
            raw.ino,
            raw.size,
            disk_usage,
            dev,
            raw.nlink,
        )
    }

    /// Whether entries below this directory may be read as directories.
    pub fn may_descend(&self) -> (may: bool)
        ensures
            may == depth_allowed(self.rules, depth_below(self.item.depth)),
    {
        self.rules.max_depth == 0 || (next_depth(self.item.depth) as usize)
            < self.rules.max_depth
    }

    /// Decides what to do with an entry of the listing.
    pub fn look_at(&self, raw: &RawDirEntry) -> (look: Look)
        ensures
            look@ == looked(self.rules, self.item@, self.dev, raw@),
    {
        let nul: usize = find_byte(raw.name.as_slice(), 0);
        proof {
            crate::bytes::lemma_first_position(raw.name@, 0);
        }
        let usable = nul == raw.name.len();
        match raw.file_type {
            FileType::Directory => Look::Emit(self.listed(raw), AfterEmit::Descend),
            FileType::Unknown => {
                if usable {
                    Look::Stat
                } else {
                    Look::Skip
                }
            },
            FileType::Symlink => {
                let after = if self.rules.follow_symlinks && self.may_descend() {
                    AfterEmit::CheckTarget
                } else {
                    AfterEmit::Nothing
                };
                Look::Emit(self.listed(raw), after)
            },
            _ => {
                if raw.size.is_none() && usable {
                    Look::Stat
                } else {
                    Look::Emit(self.listed(raw), AfterEmit::Nothing)
                }
            },
        }
    }

    /// Completes an entry with what asking for its metadata gave.
    pub fn after_stat(
        &self,
        raw: &RawDirEntry,
        stat: Result<EntryMetadata, SysError>,
    ) -> (emit: (DirEntry, AfterEmit))
        ensures
            (emit.0@, emit.1) == completed(
                self.item@,
                self.dev,
                raw@,
                match stat {
                    Ok(meta) => Some(meta),
                    Err(_) => None,
                },
            ),
    {
        let unknown = raw.file_type == FileType::Unknown;
        match stat {
            Ok(meta) => {
                if unknown {
                    let after = if meta.file_type == FileType::Directory {
                        AfterEmit::Descend
                    } else {
                        AfterEmit::Nothing
                    };
                    let entry = DirEntry::from_parts(
                        join_child(self.item.path.as_slice(), raw.name.as_slice()),
                        next_depth(self.item.depth),
                        meta.file_type,
                        meta.ino,
                        Some(meta.size),
                        Some(meta.alloc_size),
                        meta.dev,
                        Some(meta.nlink),
                    );
                    (entry, after)
                } else {
                    let mut entry = self.listed(raw);
                    entry.apparent_size = Some(meta.size);
                    entry.disk_usage = Some(meta.alloc_size);
                    entry.nlink = Some(meta.nlink);
                    (entry, AfterEmit::Nothing)
                }
            },
            Err(_) => {
                if unknown {
                    let entry = DirEntry::from_parts(
                        join_child(self.item.path.as_slice(), raw.name.as_slice()),
                        next_depth(self.item.depth),
                        FileType::Unknown,
                        raw.ino,
                        None,
                        None,
                        self.dev,
                        None,
                    );
                    (entry, AfterEmit::Nothing)
                } else {
                    (self.listed(raw), AfterEmit::Nothing)
                }
            },
        }
    }

    /// Plans to read the entry `name` as a directory, where the depth allows.
    pub fn enqueue(&mut self, name: &[u8])
        ensures
            final(self).item == old(self).item,
            final(self).rules == old(self).rules,
            final(self).dev == old(self).dev,
            final(self).work() == (if depth_allowed(
                old(self).rules,
                depth_below(old(self).item.depth),
            ) {
                old(self).work().push(
                    Work {
                        path: child_path(old(self).item.path@, name@),
                        depth: depth_below(old(self).item.depth),
                        root_dev: old(self).item.root_dev,
                    },
                )
            } else {
                old(self).work()
            }),
    {
        if self.may_descend() {
            self.children.push(copy_bytes(name));
            assert(self.work() =~= old(self).work().push(
                Work {
                    path: child_path(old(self).item.path@, name@),
                    depth: depth_below(old(self).item.depth),
                    root_dev: old(self).item.root_dev,
                },
            ));
        }
    }

    /// What to report where reading the directory failed.
    pub fn read_error(&self, error: SysError) -> (report: WalkError)
        ensures
            report@ == failure(self.item.path@, self.item.depth, error),
    {
        report_error(self.item.path.as_slice(), self.item.depth, error)
    }

    /// The directories to read next. A walk that was cancelled reads no more.
    pub fn finish(self, cancelled: bool) -> (items: Vec<WorkItem>)
        ensures
            items@.map_values(|i: WorkItem| i@) == (if cancelled {
                Seq::empty()
            } else {
                self.work()
            }),
    {
        let mut items: Vec<WorkItem> = Vec::new();
        let ghost expected = self.work();
        if cancelled || !self.may_descend() {
            assert(items@.map_values(|i: WorkItem| i@) =~= Seq::empty());
            return items;
        }
        let mut i: usize = 0;
        while i < self.children.len()
            invariant
                i <= self.children@.len(),
                depth_allowed(self.rules, depth_below(self.item.depth)),
                expected == self.work(),
                items@.map_values(|i: WorkItem| i@) == expected.take(i as int),
            decreases self.children@.len() - i,
        {
            let ghost before = items@;
            let item = WorkItem {
                path: join_child(self.item.path.as_slice(), self.children[i].as_slice()),
                depth: next_depth(self.item.depth),
                root_dev: self.item.root_dev,
            };
            items.push(item);
            i = i + 1;
            assert(items@.map_values(|i: WorkItem| i@) =~= before.map_values(
                |i: WorkItem| i@,
            ).push(item@));
            assert(expected.take(i as int) =~= expected.take(i - 1).push(expected[i - 1]));
        }
        assert(expected.take(i as int) =~= expected);
        items
    }
}

/// Reading a directory above the depth limit hands on entries at most at the
/// limit, and leads to directories above it.
pub proof fn law_depth_limit(rules: WalkRules, item: Work, names: Seq<Seq<u8>>)
    requires
        rules.max_depth > 0,
        depth_allowed(rules, item.depth),
    ensures
        forall|dev: u64, raw: RawEntry| #[trigger]
            listed_entry(item, dev, raw).depth <= rules.max_depth,
        forall|dev: u64, raw: RawEntry, meta: EntryMetadata| #[trigger]
            stated_entry(item, dev, raw, meta).depth <= rules.max_depth,
        forall|dev: u64, raw: RawEntry| #[trigger]
            unstated_entry(item, dev, raw).depth <= rules.max_depth,
        forall|k: int|
            0 <= k < work_below(rules, item, names).len() ==> depth_allowed(
                rules,
                (#[trigger] work_below(rules, item, names)[k]).depth,
            ),
{
}

/// The entries and the directories that reading a directory below a root leads
/// to lie below that root, and the directories keep its device.
pub proof fn law_stays_below_root(
    rules: WalkRules,
    item: Work,
    root: Seq<u8>,
    names: Seq<Seq<u8>>,
)
    requires
        has_prefix(item.path, root),
    ensures
        forall|dev: u64, raw: RawEntry|
            has_prefix((#[trigger] listed_entry(item, dev, raw)).path, root),
        forall|dev: u64, raw: RawEntry, meta: EntryMetadata|
            has_prefix((#[trigger] stated_entry(item, dev, raw, meta)).path, root),
        forall|dev: u64, raw: RawEntry|
            has_prefix((#[trigger] unstated_entry(item, dev, raw)).path, root),
        forall|k: int|
            0 <= k < work_below(rules, item, names).len() ==> {
                &&& has_prefix((#[trigger] work_below(rules, item, names)[k]).path, root)
                &&& work_below(rules, item, names)[k].root_dev == item.root_dev
            },
{
    assert forall|name: Seq<u8>| has_prefix(#[trigger] child_path(item.path, name), root) by {
        lemma_child_keeps_root(item.path, name, root);
    }
}

/// Whether reading a directory can lead to another one.
pub open spec fn leads_on(rules: WalkRules, from: Work, to: Work) -> bool {
    exists|name: Seq<u8>| #[trigger] work_below(rules, from, seq![name]).contains(to)
}

/// Whether a walk can come along these directories, from its root on.
pub open spec fn is_way(rules: WalkRules, way: Seq<Work>) -> bool {
    &&& way.len() > 0
    &&& way[0].depth == 0
    &&& forall|i: int|
        0 <= i < way.len() - 1 ==> leads_on(rules, #[trigger] way[i], way[i + 1])
}

/// What holds of every directory that a walk reads, however it gets there: it
/// lies above the depth limit, if there is one, at the depth of its way from
/// the root; it lies below that root; and it is compared with the device of
/// that root.
pub proof fn law_walk_keeps_its_bounds(rules: WalkRules, way: Seq<Work>, n: int)
    requires
        is_way(rules, way),
        0 <= n < way.len(),
    ensures
        depth_allowed(rules, way[n].depth),
        way[n].depth == (if n < u16::MAX {
            n
        } else {
            u16::MAX as int
        }),
        has_prefix(way[n].path, way[0].path),
        way[n].root_dev == way[0].root_dev,
    decreases n,
{
    if n > 0 {
        law_walk_keeps_its_bounds(rules, way, n - 1);
        assert(leads_on(rules, way[n - 1], way[n - 1 + 1]));
        let name = choose|name: Seq<u8>| #[trigger]
            work_below(rules, way[n - 1], seq![name]).contains(way[n]);
        let below = work_below(rules, way[n - 1], seq![name]);
        assert(below.contains(way[n]));
        assert(way[n] == below[0]);
        law_stays_below_root(rules, way[n - 1], way[0].path, seq![name]);
    }
}

} // verus!
