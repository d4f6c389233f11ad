//! Counting the results of a walk.
use crate::bytes::copy_bytes;
use crate::paths::{byte_strings, find_root, root_of};
use crate::scan::aggregator::{RootResult, ScanResult, StreamingAggregator};
use crate::scan::config::{counted_size, or_zero, ScanConfig, SizeMode};
use crate::scan::dedup::InodeDedup;
use crate::scan::progress::{time_since, ProgressTracker, ScanProgress};
use crate::scan::tree::{
    apparent_sum, disk_sum, is_tree_of, root_records, Record, TreeBuilder, TreeNode,
};
use crate::sys::{FileType, IoError};
use crate::text::{lossy, utf8_lossy};
use crate::walk::entry::{DirEntry, Entry};
use crate::walk::error::{Failure, FailureKind, WalkError, WalkErrorKind};
use crate::walk::walker::{all_said, errors_of, said};
use vstd::prelude::*;

verus! {

/// What decides how a result is counted.
#[verifier::ext_equal]
pub struct Counting {
    pub roots: Seq<Seq<u8>>,
    pub size_mode: SizeMode,
    pub dedup_hardlinks: bool,
    pub build_tree: bool,
}

impl ScanConfig {
    pub open spec fn counting(&self) -> Counting {
        Counting {
            roots: byte_strings(self.roots@),
            size_mode: self.size_mode,
            dedup_hardlinks: self.dedup_hardlinks,
            build_tree: self.build_tree,
        }
    }
}

/// The numbers of one root.
pub struct RootTally {
    pub total_size: nat,
    pub file_count: nat,
    pub dir_count: nat,
}

/// What has been counted.
#[verifier::ext_equal]
pub struct Tally {
    pub total_size: nat,
    pub file_count: nat,
    pub dir_count: nat,
    pub error_count: nat,
    pub deduped_count: nat,
    pub skipped_count: nat,
    pub seen: Set<(u64, u64)>,
    pub roots: Seq<RootTally>,
    pub records: Seq<Record>,
    pub errors: Seq<Failure>,
}

/// Before anything is counted.
pub open spec fn no_tally(c: Counting) -> Tally {
    Tally {
        total_size: 0,
        file_count: 0,
        dir_count: 0,
        error_count: 0,
        deduped_count: 0,
        skipped_count: 0,
        seen: Set::empty(),
        roots: Seq::new(
            c.roots.len(),
            |k: int| RootTally { total_size: 0, file_count: 0, dir_count: 0 },
        ),
        records: Seq::empty(),
        errors: Seq::empty(),
    }
}

/// Whether a file may have another name: one that is known to have a single
/// link has none.
pub open spec fn may_be_linked(e: Entry) -> bool {
    match e.nlink {
        Some(n) => n > 1,
        None => true,
    }
}

/// Whether a file is looked up among those counted before.
pub open spec fn is_looked_up(c: Counting, e: Entry) -> bool {
    c.dedup_hardlinks && may_be_linked(e)
}

/// Whether a file was counted before under another name.
pub open spec fn is_repeated(c: Counting, t: Tally, e: Entry) -> bool {
    is_looked_up(c, e) && t.seen.contains((e.dev, e.ino))
}

/// The numbers of the roots, with an entry added to the first root that it
/// lies below.
pub open spec fn grow_root(roots: Seq<RootTally>, k: Option<int>, size: nat, dir: bool) -> Seq<
    RootTally,
> {
    match k {
        Some(k) => roots.update(
            k,
            RootTally {
                total_size: roots[k].total_size + size,
                file_count: roots[k].file_count + if dir {
                    0nat
                } else {
                    1
                },
                dir_count: roots[k].dir_count + if dir {
                    1nat
                } else {
                    0
                },
            },
        ),
        None => roots,
    }
}

/// The record of an entry in the tree.
pub open spec fn record_of(e: Entry, dir: bool) -> Record {
    Record {
        rest: e.path,
        apparent_size: or_zero(e.apparent_size),
        disk_usage: or_zero(e.disk_usage),
        is_dir: dir,
        depth: e.depth,
    }
}

pub open spec fn grow_records(c: Counting, records: Seq<Record>, e: Entry, dir: bool) -> Seq<
    Record,
> {
    if c.build_tree {
        records.push(record_of(e, dir))
    } else {
        records
    }
}

pub open spec fn with_file(c: Counting, t: Tally, e: Entry) -> Tally {
    let size = counted_size(c.size_mode, e) as nat;
    Tally {
        total_size: t.total_size + size,
        file_count: t.file_count + 1,
        seen: if is_looked_up(c, e) {
            t.seen.insert((e.dev, e.ino))
        } else {
            t.seen
        },
        roots: grow_root(t.roots, root_of(e.path, c.roots), size, false),
        records: grow_records(c, t.records, e, false),
        ..t
    }
}

/// A directory counts as one, whatever its own size.
pub open spec fn with_dir(c: Counting, t: Tally, e: Entry) -> Tally {
    Tally {
        dir_count: t.dir_count + 1,
        roots: grow_root(t.roots, root_of(e.path, c.roots), 0, true),
        records: grow_records(c, t.records, e, true),
        ..t
    }
}

/// What has been counted once another result is.
pub open spec fn counted(c: Counting, t: Tally, result: Result<Entry, Failure>) -> Tally {
    match result {
        Ok(entry) => match entry.file_type {
            FileType::File => if is_repeated(c, t, entry) {
                Tally { deduped_count: t.deduped_count + 1, ..t }
            } else {
                with_file(c, t, entry)
            },
            FileType::Directory => with_dir(c, t, entry),
            _ => Tally { skipped_count: t.skipped_count + 1, ..t },
        },
        Err(error) => Tally {
            error_count: t.error_count + 1,
            errors: t.errors.push(error),
            ..t
        },
    }
}

/// What is counted for the results of a walk.
pub open spec fn tally(c: Counting, results: Seq<Result<Entry, Failure>>) -> Tally
    decreases results.len(),
{
    if results.len() == 0 {
        no_tally(c)
    } else {
        counted(c, tally(c, results.drop_last()), results.last())
    }
}

/// Whether a result counts as progress.
pub open spec fn is_progress(c: Counting, t: Tally, result: Result<Entry, Failure>) -> bool {
    match result {
        Ok(entry) => match entry.file_type {
            FileType::File => !is_repeated(c, t, entry),
            FileType::Directory => true,
            _ => false,
        },
        Err(_) => true,
    }
}

pub open spec fn root_tallies(roots: Seq<RootResult>) -> Seq<RootTally> {
    roots.map_values(
        |r: RootResult|
            RootTally {
                total_size: r.total_size as nat,
                file_count: r.file_count as nat,
                dir_count: r.dir_count as nat,
            },
    )
}

/// What errors say.
pub open spec fn failures(errors: Seq<WalkError>) -> Seq<Failure> {
    errors.map_values(|e: WalkError| e@)
}

/// Whether `result` reports what has been counted.
pub open spec fn is_result_of(result: ScanResult, c: Counting, t: Tally) -> bool {
    &&& result.total_size == t.total_size
    &&& result.file_count == t.file_count
    &&& result.dir_count == t.dir_count
    &&& result.error_count == t.error_count
    &&& result.deduped_count == t.deduped_count
    &&& result.skipped_count == t.skipped_count
    &&& result.roots@.len() == c.roots.len()
    &&& forall|k: int| 0 <= k < c.roots.len() ==> (#[trigger] result.roots@[k]).path@ == c.roots[k]
    &&& root_tallies(result.roots@) == t.roots
    &&& match result.tree {
        Some(trees) => c.build_tree && are_trees_of(trees@, c.roots, t.records),
        None => !c.build_tree,
    }
}

/// Whether `trees` are the trees of the records, one for each root.
pub open spec fn are_trees_of(
    trees: Seq<TreeNode>,
    roots: Seq<Seq<u8>>,
    records: Seq<Record>,
) -> bool {
    &&& trees.len() == roots.len()
    &&& forall|k: int|
        0 <= k < trees.len() ==> is_tree_of(
            #[trigger] trees[k],
            roots[k],
            true,
            0,
            root_records(records, roots, k),
        )
}

/// A scan under way.
pub struct ScanState {
    pub config: ScanConfig,
    pub aggregator: StreamingAggregator,
    pub dedup: Option<InodeDedup>,
    pub tree: Option<TreeBuilder>,
    pub progress: ProgressTracker,
    pub root_results: Vec<RootResult>,
    pub errors: Vec<WalkError>,
}

impl View for ScanState {
    type V = Tally;

    open spec fn view(&self) -> Tally {
        Tally {
            total_size: self.aggregator.result.total_size as nat,
            file_count: self.aggregator.result.file_count as nat,
            dir_count: self.aggregator.result.dir_count as nat,
            error_count: self.aggregator.result.error_count as nat,
            deduped_count: self.aggregator.result.deduped_count as nat,
            skipped_count: self.aggregator.result.skipped_count as nat,
            seen: match self.dedup {
                Some(dedup) => dedup@,
                None => Set::empty(),
            },
            roots: root_tallies(self.root_results@),
            records: match self.tree {
                Some(builder) => builder@,
                None => Seq::empty(),
            },
            errors: failures(self.errors@),
        }
    }
}

/// A copy of a size, or zero.
fn size_or_zero(size: Option<u64>) -> (known: u64)
    ensures
        known == or_zero(size),
{
    match size {
        Some(size) => size,
        None => 0,
    }
}

fn has_links(entry: &DirEntry) -> (may: bool)
    ensures
        may == may_be_linked(entry@),
{
    match entry.nlink {
        Some(n) => n > 1,
        None => true,
    }
}

/// The size that a scan counts for an entry.
fn entry_size(mode: SizeMode, entry: &DirEntry) -> (size: u64)
    ensures
        size == counted_size(mode, entry@),
{
    match mode {
        SizeMode::DiskUsage => match entry.disk_usage {
            Some(size) => size,
            None => size_or_zero(entry.apparent_size),
        },
        SizeMode::ApparentSize => match entry.apparent_size {
            Some(size) => size,
            None => size_or_zero(entry.disk_usage),
        },
    }
}

impl ScanState {
    /// The parts that the configuration asks for are there, the progress
    /// reports the totals, and no root has more than all together.
    pub open spec fn wf(&self) -> bool {
        &&& self.dedup is Some == self.config.dedup_hardlinks
        &&& self.dedup matches Some(dedup) ==> dedup.wf()
        &&& self.tree is Some == self.config.build_tree
        &&& self.tree matches Some(builder) ==> builder.wf()
        &&& self.root_results@.len() == self.config.roots@.len()
        &&& forall|k: int|
            0 <= k < self.root_results@.len() ==> {
                &&& (#[trigger] self.root_results@[k]).path@ == self.config.roots@[k]@
                &&& self.root_results@[k].total_size <= self.aggregator.result.total_size
                &&& self.root_results@[k].file_count <= self.aggregator.result.file_count
                &&& self.root_results@[k].dir_count <= self.aggregator.result.dir_count
            }
        &&& self.progress.files == self.aggregator.result.file_count
        &&& self.progress.dirs == self.aggregator.result.dir_count
        &&& self.progress.bytes == self.aggregator.result.total_size
        &&& self.progress.errors == self.aggregator.result.error_count
        &&& self.aggregator.result.roots@.len() == 0
        &&& self.aggregator.result.tree is None
    }

    /// Whether the tree has room for an entry.
    pub open spec fn tree_has_room(&self, e: Entry) -> bool {
        self.tree matches Some(builder) ==> builder.has_room(
            or_zero(e.apparent_size),
            or_zero(e.disk_usage),
        )
    }

    /// Whether the totals can take a result.
    pub open spec fn has_room(&self, result: Result<DirEntry, WalkError>) -> bool {
        let totals = self.aggregator.result;
        match result {
            Ok(entry) => match entry@.file_type {
                FileType::File => if is_repeated(self.config.counting(), self@, entry@) {
                    totals.deduped_count < u64::MAX
                } else {
                    &&& totals.file_count < u64::MAX
                    &&& totals.total_size + counted_size(self.config.size_mode, entry@) <= u64::MAX
                    &&& self.tree_has_room(entry@)
                },
                FileType::Directory => totals.dir_count < u64::MAX && self.tree_has_room(entry@),
                _ => totals.skipped_count < u64::MAX,
            },
            Err(_) => totals.error_count < u64::MAX,
        }
    }

    fn tree_fits(&self, entry: &DirEntry) -> (fits: bool)
        ensures
            fits == self.tree_has_room(entry@),
    {
        match &self.tree {
            Some(builder) => builder.fits(
                size_or_zero(entry.apparent_size),
                size_or_zero(entry.disk_usage),
            ),
            None => true,
        }
    }

    /// Whether a file was counted before under another name.
    fn was_counted(&self, entry: &DirEntry) -> (repeated: bool)
        requires
            self.wf(),
        ensures
            repeated == is_repeated(self.config.counting(), self@, entry@),
    {
        match &self.dedup {
            Some(dedup) => has_links(entry) && dedup.contains(entry.dev, entry.ino),
            None => false,
        }
    }

    /// Whether the totals can take a result.
    pub fn fits(&self, result: &Result<DirEntry, WalkError>) -> (fits: bool)
        requires
            self.wf(),
        ensures
            fits == self.has_room(*result),
    {
        let totals = &self.aggregator.result;
        match result {
            Ok(entry) => match entry.file_type {
                FileType::File => {
                    if self.was_counted(entry) {
                        totals.deduped_count < u64::MAX
                    } else {
                        let size: u64 = entry_size(self.config.size_mode, entry);
                        totals.file_count < u64::MAX && size <= u64::MAX - totals.total_size
                            && self.tree_fits(entry)
                    }
                },
                FileType::Directory => totals.dir_count < u64::MAX && self.tree_fits(entry),
                _ => totals.skipped_count < u64::MAX,
            },
            Err(_) => totals.error_count < u64::MAX,
        }
    }

    /// Starts a scan at the given time.
    pub fn new(config: ScanConfig, now: u64) -> (state: Self)
        ensures
            state.wf(),
            state.config == config,
            state@ == no_tally(config.counting()),
            state.progress.start == now,
            state.progress.last_update == now,
            state.progress.current_path is None,
            state.progress.update_interval_ms == 100,
    {
        let mut root_results: Vec<RootResult> = Vec::new();
        let mut k: usize = 0;
        while k < config.roots.len()
            invariant
                k <= config.roots@.len(),
                root_results@.len() == k,
                forall|j: int|
                    0 <= j < k ==> {
                        &&& (#[trigger] root_results@[j]).path@ == config.roots@[j]@
                        &&& root_results@[j].total_size == 0
                        &&& root_results@[j].file_count == 0
                        &&& root_results@[j].dir_count == 0
                    },
            decreases config.roots@.len() - k,
        {
            root_results.push(
                RootResult {
                    path: copy_bytes(config.roots[k].as_slice()),
                    total_size: 0,
                    file_count: 0,
                    dir_count: 0,
                },
            );
            k = k + 1;
        }
        let dedup = if config.dedup_hardlinks {
            Some(InodeDedup::new())
        } else {
            None
        };
        let tree = if config.build_tree {
            Some(TreeBuilder::new())
        } else {
            None
        };
        let state = ScanState {
            config,
            aggregator: StreamingAggregator::new(),
            dedup,
            tree,
            progress: ProgressTracker::new(now),
            root_results,
            errors: Vec::new(),
        };
        assert(state@ =~= no_tally(config.counting()));
        state
    }

    /// Looks a file up that may have other names, and remembers it: tells
    /// whether to count it. Any other file is counted.
    fn is_new_file(&mut self, entry: &DirEntry) -> (new: bool)
        requires
            old(self).wf(),
        ensures
            final(self).wf(),
            *final(self) == (ScanState { dedup: final(self).dedup, ..*old(self) }),
            new == !is_repeated(old(self).config.counting(), old(self)@, entry@),
            final(self)@.seen == (if is_looked_up(old(self).config.counting(), entry@) {
                old(self)@.seen.insert((entry.dev, entry.ino))
            } else {
                old(self)@.seen
            }),
    {
        if !has_links(entry) {
            return true;
        }
        match &mut self.dedup {
            Some(dedup) => dedup.check_and_insert(entry.dev, entry.ino),
            None => true,
        }
    }

    fn add_to_tree(&mut self, entry: &DirEntry, is_dir: bool)
        requires
            old(self).wf(),
            old(self).tree_has_room(entry@),
        ensures
            final(self).wf(),
            *final(self) == (ScanState { tree: final(self).tree, ..*old(self) }),
            final(self)@.records == grow_records(
                old(self).config.counting(),
                old(self)@.records,
                entry@,
                is_dir,
            ),
    {
        let apparent: u64 = size_or_zero(entry.apparent_size);
        let disk: u64 = size_or_zero(entry.disk_usage);
        match &mut self.tree {
            Some(builder) => builder.insert(
                entry.path_bytes(),
                apparent,
                disk,
                is_dir,
                entry.depth,
            ),
            None => {},
        }
    }

    fn add_to_root(&mut self, path: &[u8], size: u64, is_dir: bool)
        requires
            old(self).root_results@.len() == old(self).config.roots@.len(),
            forall|k: int|
                0 <= k < old(self).root_results@.len() ==> {
                    &&& (#[trigger] old(self).root_results@[k]).total_size + size <= u64::MAX
                    &&& old(self).root_results@[k].file_count < u64::MAX || is_dir
                    &&& old(self).root_results@[k].dir_count < u64::MAX || !is_dir
                },
        ensures
            *final(self) == (ScanState { root_results: final(self).root_results, ..*old(self) }),
            final(self).root_results@.len() == old(self).root_results@.len(),
            root_tallies(final(self).root_results@) == grow_root(
                root_tallies(old(self).root_results@),
                root_of(path@, byte_strings(old(self).config.roots@)),
                size as nat,
                is_dir,
            ),
            forall|k: int|
                0 <= k < old(self).root_results@.len() ==> {
                    let root = #[trigger] final(self).root_results@[k];
                    let before = old(self).root_results@[k];
                    &&& root.path == before.path
                    &&& root.total_size <= before.total_size + size
                    &&& root.file_count <= before.file_count + if is_dir {
                        0int
                    } else {
                        1
                    }
                    &&& root.dir_count <= before.dir_count + if is_dir {
                        1int
                    } else {
                        0
                    }
                },
    {
        match find_root(path, &self.config.roots) {
            Some(k) => {
                let root = &mut self.root_results[k];
                root.total_size = root.total_size + size;
                if is_dir {
                    root.dir_count = root.dir_count + 1;
                } else {
                    root.file_count = root.file_count + 1;
                }
            },
            None => {},
        }
        assert(root_tallies(self.root_results@) =~= grow_root(
            root_tallies(old(self).root_results@),
            root_of(path@, byte_strings(old(self).config.roots@)),
            size as nat,
            is_dir,
        ));
    }

    /// Counts a result of the walk, and reports progress if that is due.
    pub fn record(&mut self, result: Result<DirEntry, WalkError>, now: u64) -> (update: Option<
        ScanProgress,
    >)
        requires
            old(self).wf(),
            old(self).has_room(result),
        ensures
            final(self).wf(),
            final(self).config == old(self).config,
            final(self)@ == counted(old(self).config.counting(), old(self)@, said(result)),
            final(self).errors@ == (match result {
                Ok(_) => old(self).errors@,
                Err(error) => old(self).errors@.push(error),
            }),
            update is Some <==> {
                &&& is_progress(old(self).config.counting(), old(self)@, said(result))
                &&& old(self).progress.due(now)
            },
            update matches Some(report) ==> {
                &&& report.files_scanned == final(self)@.file_count
                &&& report.dirs_scanned == final(self)@.dir_count
                &&& report.bytes_scanned == final(self)@.total_size
                &&& report.errors == final(self)@.error_count
                &&& report.elapsed_nanos == time_since(old(self).progress.start, now)
                &&& match result {
                    Ok(entry) => {
                        &&& report.current_path is Some
                        &&& report.current_path->Some_0@ == utf8_lossy(entry@.path)
                    },
                    Err(_) => report.current_path == old(self).progress.current_path,
                }
            },
            final(self).progress.start == old(self).progress.start,
            final(self).progress.update_interval_ms == old(self).progress.update_interval_ms,
            final(self).progress.last_update == (if update is Some {
                now
            } else {
                old(self).progress.last_update
            }),
            update is Some ==> final(self).progress.current_path is None,
            update is None && result is Ok && old(self).progress.due(now) ==> {
                &&& final(self).progress.current_path is Some
                &&& final(self).progress.current_path->Some_0@ == utf8_lossy(result->Ok_0@.path)
            },
            update is None && !(result is Ok && old(self).progress.due(now)) ==> final(
                self).progress.current_path == old(self).progress.current_path,
    {
        match result {
            Ok(entry) => {
                if self.progress.should_update(now) {
                    self.progress.set_current_path(lossy(entry.path_bytes()));
                }
                let size: u64 = entry_size(self.config.size_mode, &entry);
                if entry.is_file() {
                    if !self.is_new_file(&entry) {
                        self.aggregator.add_deduped();
                        proof {
                            assert(self@.seen =~= old(self)@.seen);
                        }
                        return None;
                    }
                    self.add_to_tree(&entry, false);
                    self.add_to_root(entry.path_bytes(), size, false);
                    self.aggregator.add_entry(size, false);
                    self.progress.record_file(size, now)
                } else if entry.is_dir() {
                    self.add_to_tree(&entry, true);
                    self.add_to_root(entry.path_bytes(), 0, true);
                    self.aggregator.add_entry(0, true);
                    self.progress.record_dir(now)
                } else {
                    self.aggregator.add_skipped();
                    None
                }
            },
            Err(error) => {
                self.aggregator.add_error();
                self.errors.push(error);
                assert(failures(self.errors@) =~= old(self)@.errors.push(error@));
                self.progress.record_error(now)
            },
        }
    }

    /// Ends the scan: the last progress report, the result and the errors.
    pub fn finish(self, now: u64) -> (end: (ScanProgress, ScanResult, Vec<WalkError>))
        requires
            self.wf(),
        ensures
            end.0 == self.progress.report(None, now),
            end.0.files_scanned == end.1.file_count,
            end.0.dirs_scanned == end.1.dir_count,
            end.0.bytes_scanned == end.1.total_size,
            end.0.errors == end.1.error_count,
            is_result_of(end.1, self.config.counting(), self@),
            end.2@ == self.errors@,
    {
        let report = self.progress.finish(now);
        let ghost state = self;
        let mut aggregator = self.aggregator;
        let ghost roots = self.root_results@;
        for root in iter: self.root_results
            invariant
                iter.seq() == roots,
                aggregator.result == (ScanResult {
                    roots: aggregator.result.roots,
                    ..state.aggregator.result
                }),
                aggregator.result.roots@ == roots.take(iter.index() as int),
        {
            assert(roots.take(iter.index() + 1) =~= roots.take(iter.index() as int).push(root));
            aggregator.add_root_result(root);
        }
        assert(roots.take(roots.len() as int) =~= roots);
        match self.tree {
            Some(builder) => {
                let trees = builder.build(&self.config.roots);
                aggregator.set_tree(Some(trees));
            },
            None => {},
        }
        (report, aggregator.finish(), self.errors)
    }
}

#[derive(Debug, Clone)]
pub struct Scanner {
    pub config: ScanConfig,
}

/// The totals grow with the results.
proof fn lemma_tally_grows(c: Counting, results: Seq<Result<Entry, Failure>>, n: int)
    requires
        0 <= n <= results.len(),
    ensures
        tally(c, results.take(n)).total_size <= tally(c, results).total_size,
        apparent_sum(tally(c, results.take(n)).records) <= apparent_sum(tally(c, results).records),
        disk_sum(tally(c, results.take(n)).records) <= disk_sum(tally(c, results).records),
    decreases results.len() - n,
{
    if n == results.len() {
        assert(results.take(n) =~= results);
    } else {
        lemma_tally_grows(c, results, n + 1);
        assert(results.take(n + 1).drop_last() =~= results.take(n));
        let t = tally(c, results.take(n));
        if let Ok(entry) = results[n] {
            let file = t.records.push(record_of(entry, false));
            assert(file.drop_last() =~= t.records);
            let dir = t.records.push(record_of(entry, true));
            assert(dir.drop_last() =~= t.records);
        }
    }
}

/// Each result is counted once: as a file, a directory, a repeated file, a
/// skipped entry or an error.
pub proof fn law_every_result_is_counted(c: Counting, results: Seq<Result<Entry, Failure>>)
    ensures
        ({
            let t = tally(c, results);
            t.file_count + t.dir_count + t.deduped_count + t.skipped_count + t.error_count
                == results.len()
        }),
        tally(c, results).error_count == tally(c, results).errors.len(),
        tally(c, results).errors == errors_of(results),
    decreases results.len(),
{
    if results.len() > 0 {
        law_every_result_is_counted(c, results.drop_last());
    }
}

impl Scanner {
    pub fn new(config: ScanConfig) -> (scanner: Self)
        ensures
            scanner.config == config,
    {
        Scanner { config }
    }

    /// Starts a scan at the given time.
    pub fn start(&self, now: u64) -> (state: ScanState)
        ensures
            state.wf(),
            state.config.counting() == self.config.counting(),
            state@ == no_tally(self.config.counting()),
            state.progress.start == now,
            state.progress.last_update == now,
            state.progress.current_path is None,
            state.progress.update_interval_ms == 100,
    {
        ScanState::new(self.config.duplicate(), now)
    }

    /// Counts the results of a walk. Their sizes have to add up to a number
    /// that fits.
    pub fn scan_blocking(&self, results: Vec<Result<DirEntry, WalkError>>) -> (end: (
        ScanResult,
        Vec<WalkError>,
    ))
        requires
            tally(self.config.counting(), all_said(results@)).total_size <= u64::MAX,
            apparent_sum(tally(self.config.counting(), all_said(results@)).records) <= u64::MAX,
            disk_sum(tally(self.config.counting(), all_said(results@)).records) <= u64::MAX,
        ensures
            is_result_of(
                end.0,
                self.config.counting(),
                tally(self.config.counting(), all_said(results@)),
            ),
            end.1@ == errors_of(results@),
            failures(end.1@) == tally(self.config.counting(), all_said(results@)).errors,
    {
        let ghost all = results@;
        let ghost views = all_said(all);
        let ghost c = self.config.counting();
        let mut state = self.start(0);
        let count: usize = results.len();
        proof {
            assert(views.take(0) =~= Seq::empty());
            assert(failures(state.errors@).len() == 0);
            assert(state.errors@ =~= Seq::empty());
        }
        for result in iter: results
            invariant
                iter.seq() == all,
                all.len() == count,
                views == all_said(all),
                c == self.config.counting(),
                tally(c, views).total_size <= u64::MAX,
                apparent_sum(tally(c, views).records) <= u64::MAX,
                disk_sum(tally(c, views).records) <= u64::MAX,
                state.wf(),
                state.config.counting() == c,
                state@ == tally(c, views.take(iter.index() as int)),
                state.errors@ == errors_of(all.take(iter.index() as int)),
        {
            proof {
                let n = iter.index() as int;
                assert(all.take(n + 1).drop_last() =~= all.take(n));
                assert(views.take(n + 1).drop_last() =~= views.take(n));
                assert(views.take(n + 1).last() == said(result));
                lemma_tally_grows(c, views, n + 1);
                law_every_result_is_counted(c, views.take(n));
                if result is Ok {
                    let file = state@.records.push(record_of(result->Ok_0@, false));
                    assert(file.drop_last() =~= state@.records);
                    let dir = state@.records.push(record_of(result->Ok_0@, true));
                    assert(dir.drop_last() =~= state@.records);
                }
            }
            let _ = state.record(result, 0);
        }
        assert(all.take(all.len() as int) =~= all);
        assert(views.take(all.len() as int) =~= views);
        let (_, result, errors) = state.finish(0);
        (result, errors)
    }
}

/// What a scan gives back: its result if one was received; if the scan ended
/// without one, an empty result with one error.
pub fn outcome(received: Option<(ScanResult, Vec<WalkError>)>) -> (end: (
    ScanResult,
    Vec<WalkError>,
))
    ensures
        match received {
            Some(result) => end == result,
            None => {
                &&& end.0.error_count == 1
                &&& (ScanResult { error_count: 0, ..end.0 }).is_blank()
                &&& end.1@.len() == 1
                &&& end.1@[0]@ == (Failure {
                    path: None,
                    depth: 0,
                    kind: FailureKind::Io {
                        code: None,
                        text: "Custom { kind: Other, error: \"scan thread terminated unexpectedly\" }"@,
                    },
                })
            },
        },
{
    match received {
        Some(result) => result,
        None => {
            let mut result: ScanResult = Default::default();
            result.error_count = 1;
            let mut errors: Vec<WalkError> = Vec::new();
            errors.push(
                WalkError {
                    path: None,
                    depth: 0,
                    kind: WalkErrorKind::Io(
                        IoError {
                            code: None,
                            text: String::from_str(
                                "Custom { kind: Other, error: \"scan thread terminated unexpectedly\" }",
                            ),
                        },
                    ),
                },
            );
            (result, errors)
        },
    }
}

} // verus!
