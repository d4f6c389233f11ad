//! What the decisions of a worker come to, one by one.
use crate::paths::child_path;
use crate::sys::{EntryMetadata, FileType, RawDirEntry, SysError};
use crate::walk::config::WalkConfig;
use crate::walk::entry::{next_depth, DirEntry};
use crate::walk::error::{map_sys_error, WalkError, WalkErrorKind};
use crate::walk::reach::{is_one_deeper, limit_allows};
use crate::walk::search::{
    doubled_wait, first_source, idle_micros, next_step, run_step, Probe, RunAction, RunEvent,
    SearchStep, Source,
};
use crate::walk::steps::{begin_directory, dir_step, send_step, DirEvent, DirState, SendStep};
use crate::walk::walker::Walker;
use crate::walk::worker::{
    nul_path_error, seed_root, start_directory, AfterEmit, DirStart, DirTask, Look, WalkRules,
    WorkItem,
};
use vstd::prelude::*;

verus! {

/// Whether an entry lies in the directory that is read, under the name that the
/// listing gives and one level deeper.
pub open spec fn lies_in(entry: DirEntry, task: DirTask, raw: RawDirEntry) -> bool {
    &&& entry.path@ == child_path(task.item.path@, raw.name@)
    &&& is_one_deeper(entry.depth, task.item.depth)
}

/// Whether an entry has what the listing gives of its type, inode number and
/// device; the device of the directory stands in for the last.
pub open spec fn is_as_listed(entry: DirEntry, task: DirTask, raw: RawDirEntry) -> bool {
    &&& entry.file_type == raw.file_type
    &&& entry.ino == raw.ino
    &&& entry.dev == (if raw.dev is Some {
        raw.dev->Some_0
    } else {
        task.dev
    })
}

/// Whether an entry has the sizes and the links that the listing gives; the size
/// stands in for an allocated size that it does not give.
pub open spec fn has_listed_sizes(entry: DirEntry, raw: RawDirEntry) -> bool {
    &&& entry.apparent_size == raw.size
    &&& entry.disk_usage == (if raw.alloc_size is Some {
        raw.alloc_size
    } else {
        raw.size
    })
    &&& entry.nlink == raw.nlink
}

/// Whether an entry has the sizes and the links that metadata gives.
pub open spec fn has_stated_sizes(entry: DirEntry, meta: EntryMetadata) -> bool {
    &&& entry.apparent_size == Some(meta.size)
    &&& entry.disk_usage == Some(meta.alloc_size)
    &&& entry.nlink == Some(meta.nlink)
}

/// Looking at an entry of a listing: a directory, whatever it is called, is handed
/// on and read in turn; a link is handed on, and followed if links are and the
/// depth allows it; an entry whose type or size is missing is asked for; any
/// other is handed on. Only an entry of unknown type that cannot be asked for is
/// passed over. What is handed on is what the listing gives.
pub proof fn law_listed_entries_are_looked_at(task: &DirTask, raw: &RawDirEntry, look: Look)
    requires
        call_ensures(DirTask::look_at, (task, raw), look),
    ensures
        look matches Look::Emit(entry, _) ==> {
            &&& lies_in(entry, *task, *raw)
            &&& is_as_listed(entry, *task, *raw)
            &&& has_listed_sizes(entry, *raw)
        },
        match raw.file_type {
            FileType::Directory => look is Emit && look->Emit_1 == AfterEmit::Descend,
            FileType::Symlink => look is Emit && look->Emit_1 == (if task.rules.follow_symlinks
                && limit_allows(task.rules, task.item.depth) {
                AfterEmit::CheckTarget
            } else {
                AfterEmit::Nothing
            }),
            FileType::Unknown => if raw.name@.contains(0u8) {
                look is Skip
            } else {
                look is Stat
            },
            _ => if raw.size is None && !raw.name@.contains(0u8) {
                look is Stat
            } else {
                look is Emit && look->Emit_1 == AfterEmit::Nothing
            },
        },
{
    assert(look@ == crate::walk::worker::looked(task.rules, task.item@, task.dev, raw@));
    if let Look::Emit(entry, after) = look {
        assert(look@->Emit_0 == entry@);
    }
}

/// Once an entry was asked for, it is handed on, with the sizes and links of its
/// metadata; one of unknown type takes everything from there, and is read in turn
/// exactly if it turns out to be a directory. Where the answer failed, what the
/// listing gives has to do, and of an entry of unknown type its name and inode
/// number.
pub proof fn law_entries_are_completed(
    task: &DirTask,
    raw: &RawDirEntry,
    stat: Result<EntryMetadata, SysError>,
    emit: (DirEntry, AfterEmit),
)
    requires
        call_ensures(DirTask::after_stat, (task, raw, stat), emit),
    ensures
        lies_in(emit.0, *task, *raw),
        raw.file_type != FileType::Unknown ==> {
            &&& is_as_listed(emit.0, *task, *raw)
            &&& emit.1 == AfterEmit::Nothing
            &&& match stat {
                Ok(meta) => has_stated_sizes(emit.0, meta),
                Err(_) => has_listed_sizes(emit.0, *raw),
            }
        },
        raw.file_type == FileType::Unknown ==> match stat {
            Ok(meta) => {
                &&& emit.0.file_type == meta.file_type
                &&& emit.0.ino == meta.ino
                &&& emit.0.dev == meta.dev
                &&& has_stated_sizes(emit.0, meta)
                &&& emit.1 == (if meta.file_type == FileType::Directory {
                    AfterEmit::Descend
                } else {
                    AfterEmit::Nothing
                })
            },
            Err(_) => {
                &&& emit.0.file_type == FileType::Unknown
                &&& emit.0.ino == raw.ino
                &&& emit.0.dev == task.dev
                &&& emit.0.apparent_size is None
                &&& emit.0.disk_usage is None
                &&& emit.0.nlink is None
                &&& emit.1 == AfterEmit::Nothing
            },
        },
{
    assert(emit.0@.path == emit.0.path@);
}

/// An entry that was handed on is read as a directory if it is one, or if it is a
/// link that is to be checked and leads to one.
pub proof fn law_directories_are_entered(after: AfterEmit, target_is_dir: bool, descends: bool)
    requires
        call_ensures(AfterEmit::descends, (after, target_is_dir), descends),
    ensures
        descends <==> after == AfterEmit::Descend || (after == AfterEmit::CheckTarget
            && target_is_dir),
{
}

/// Whether a work item is the one for an entry of the directory that is read.
pub open spec fn is_work_for(item: WorkItem, task: DirTask, name: Seq<u8>) -> bool {
    &&& item.path@ == child_path(task.item.path@, name)
    &&& is_one_deeper(item.depth, task.item.depth)
    &&& item.root_dev == task.item.root_dev
}

/// A worker that is done with a directory goes on with every directory that it
/// planned to read there, in order, each under its own path, one level deeper and
/// on behalf of the same root; with none where the depth does not allow it, or
/// once the walk was cancelled.
pub proof fn law_planned_directories_are_queued(
    task: DirTask,
    cancelled: bool,
    items: Vec<WorkItem>,
)
    requires
        call_ensures(DirTask::finish, (task, cancelled), items),
    ensures
        cancelled || !limit_allows(task.rules, task.item.depth) ==> items@.len() == 0,
        !cancelled && limit_allows(task.rules, task.item.depth) ==> {
            &&& items@.len() == task.children@.len()
            &&& forall|i: int|
                0 <= i < items@.len() ==> is_work_for(
                    #[trigger] items@[i],
                    task,
                    task.children@[i]@,
                )
        },
{
    let views = items@.map_values(|i: WorkItem| i@);
    assert(views.len() == items@.len());
    assert forall|i: int| 0 <= i < items@.len() implies views[i] == (#[trigger] items@[i])@ by {}
    if !cancelled && limit_allows(task.rules, task.item.depth) {
        assert forall|i: int| 0 <= i < items@.len() implies is_work_for(
            #[trigger] items@[i],
            task,
            task.children@[i]@,
        ) by {
            assert(views[i] == task.work()[i]);
        }
    }
}

/// Planning to read an entry as a directory adds its name behind those that were
/// planned before, where the depth allows it.
pub proof fn law_directories_are_planned(task: &mut DirTask, name: &[u8])
    requires
        limit_allows(old(task).rules, old(task).item.depth),
        call_ensures(DirTask::enqueue, (task, name), ()),
    ensures
        final(task).item == old(task).item,
        final(task).rules == old(task).rules,
        final(task).dev == old(task).dev,
        final(task).children@.len() == old(task).children@.len() + 1,
        final(task).work().len() == old(task).work().len() + 1,
        final(task).work().last().path == child_path(old(task).item.path@, name@),
        is_one_deeper(final(task).work().last().depth, old(task).item.depth),
        final(task).work().last().root_dev == old(task).item.root_dev,
        final(task).work().drop_last() == old(task).work(),
{
    let before = *old(task);
    let after = *final(task);
    assert(after.work().drop_last() =~= before.work());
    assert(after.work().len() == after.children@.len());
    assert(before.work().len() == before.children@.len());
}

/// Whether an error says that the system refused a directory, and why.
pub open spec fn tells_refusal(
    error: WalkError,
    path: Seq<u8>,
    depth: u16,
    reason: SysError,
) -> bool {
    &&& error.path is Some
    &&& error.path->Some_0@ == path
    &&& error.depth == depth
    &&& is_kind_of(error.kind, reason)
}

/// Whether a kind of error is that of an error of the system: refused access (13
/// and 1), exhausted descriptors (24 and 23), or the error in its own words.
pub open spec fn is_kind_of(kind: WalkErrorKind, reason: SysError) -> bool {
    match reason {
        SysError::Io(io) => if io.code == Some(13i32) || io.code == Some(1i32) {
            kind is PermissionDenied
        } else if io.code == Some(24i32) || io.code == Some(23i32) {
            kind is TooManyOpenFiles
        } else {
            &&& kind is Io
            &&& kind->Io_0.code == io.code
            &&& kind->Io_0.text@ == io.text@
        },
        _ => kind is Io && kind->Io_0.code is None,
    }
}

proof fn lemma_kind(kind: WalkErrorKind, reason: SysError)
    requires
        kind@ == crate::walk::error::failure_kind(reason),
    ensures
        is_kind_of(kind, reason),
{
}

proof fn lemma_refusal(error: WalkError, path: Seq<u8>, depth: u16, reason: SysError)
    requires
        error@ == crate::walk::worker::failure(path, depth, reason),
    ensures
        tells_refusal(error, path, depth, reason),
{
    assert(error@.kind == error.kind@);
    lemma_kind(error.kind, reason);
}

/// Errors of the system are sorted by their numbers.
pub proof fn law_errors_are_sorted(e: SysError, kind: WalkErrorKind)
    requires
        call_ensures(map_sys_error, (e,), kind),
    ensures
        is_kind_of(kind, e),
{
    lemma_kind(kind, e);
}

/// A root that can be opened and examined is where a walk starts, at depth zero
/// and with its own device as that of the walk; any other is an error.
pub proof fn law_roots_are_seeded(
    root: Vec<u8>,
    probe: Result<EntryMetadata, SysError>,
    seeded: Result<WorkItem, WalkError>,
)
    requires
        call_ensures(seed_root, (root, probe), seeded),
    ensures
        probe matches Ok(meta) ==> {
            &&& seeded is Ok
            &&& seeded->Ok_0.path@ == root@
            &&& seeded->Ok_0.depth == 0
            &&& seeded->Ok_0.root_dev == meta.dev
        },
        probe matches Err(e) ==> seeded is Err && tells_refusal(seeded->Err_0, root@, 0, e),
{
    match probe {
        Ok(meta) => {
            let item = seeded->Ok_0;
            assert(item@.path == item.path@ && item@.depth == item.depth && item@.root_dev
                == item.root_dev);
        },
        Err(e) => {
            lemma_refusal(seeded->Err_0, root@, 0, e);
        },
    }
}

/// A path with a NUL byte is an error, and no other path is.
pub proof fn law_nul_paths_are_errors(path: &[u8], depth: u16, report: Option<WalkError>)
    requires
        call_ensures(nul_path_error, (path, depth), report),
    ensures
        report is Some <==> exists|i: int| 0 <= i < path@.len() && #[trigger] path@[i] == 0,
        report matches Some(error) ==> {
            &&& error.path is Some
            &&& error.path->Some_0@ == path@
            &&& error.depth == depth
            &&& error.kind is Io
            &&& error.kind->Io_0.code is None
            &&& error.kind->Io_0.text@
                == "Custom { kind: InvalidInput, error: \"path contains NUL byte\" }"@
        },
{
    if let Some(error) = report {
        assert(error@.kind == error.kind@);
        let i = choose|i: int| 0 <= i < path@.len() && path@[i] == 0u8;
        assert(path@[i] == 0);
    }
}

/// A directory that was opened is read unless the walk stays on the file system of
/// its root and the directory lies on another; one that could not be opened or
/// examined is an error.
pub proof fn law_directories_are_started(
    item: WorkItem,
    rules: WalkRules,
    probe: Result<EntryMetadata, SysError>,
    start: DirStart,
)
    requires
        call_ensures(start_directory, (item, rules, probe), start),
    ensures
        probe matches Err(e) ==> start is Failed && tells_refusal(
            start->Failed_0,
            item.path@,
            item.depth,
            e,
        ),
        probe matches Ok(meta) ==> {
            &&& rules.same_filesystem && meta.dev != item.root_dev ==> start is OtherFilesystem
            &&& !rules.same_filesystem || meta.dev == item.root_dev ==> {
                &&& start is Read
                &&& start->Read_0.item.path@ == item.path@
                &&& start->Read_0.item.depth == item.depth
                &&& start->Read_0.item.root_dev == item.root_dev
                &&& start->Read_0.rules == rules
                &&& start->Read_0.dev == meta.dev
                &&& start->Read_0.children@.len() == 0
            }
        },
{
    match probe {
        Ok(meta) => {
            if start is Read {
                let read = start->Read_0.item;
                assert(read@.path == read.path@ && read@.depth == read.depth && read@.root_dev
                    == read.root_dev);
            }
        },
        Err(e) => {
            lemma_refusal(start->Failed_0, item.path@, item.depth, e);
        },
    }
}

/// A worker starts on a directory by opening it; one whose path has a NUL byte it
/// reports, and is done with.
pub proof fn law_directories_are_begun(item: WorkItem, state: DirState)
    requires
        call_ensures(begin_directory, (item,), state),
    ensures
        !item.path@.contains(0u8) ==> state is Open && state->Open_0@ == item@,
        item.path@.contains(0u8) ==> {
            &&& state is Finish
            &&& state->Finish_0@.len() == 1
            &&& state->Finish_0@[0] is Report
            &&& state->Finish_0@[0]->Report_0.path is Some
            &&& state->Finish_0@[0]->Report_0.path->Some_0@ == item.path@
            &&& state->Finish_0@[0]->Report_0.depth == item.depth
            &&& state->Finish_0@[0]->Report_0.kind is Io
        },
{
    if item.path@.contains(0u8) {
        let actions = state->Finish_0@;
        let said = crate::walk::steps::deeds(actions);
        assert(said.len() == actions.len());
        assert(said[0] == actions[0]@);
        let error = actions[0]->Report_0;
        assert(error@.kind == error.kind@);
    }
}

/// The directories below one may be read where the depth limit allows it.
pub proof fn law_depth_is_limited(task: &DirTask, may: bool)
    requires
        call_ensures(DirTask::may_descend, (task,), may),
    ensures
        may == limit_allows(task.rules, task.item.depth),
{
}

/// A read that failed is an error of its directory.
pub proof fn law_failed_reads_are_errors(task: &DirTask, error: SysError, report: WalkError)
    requires
        call_ensures(DirTask::read_error, (task, error), report),
    ensures
        tells_refusal(report, task.item.path@, task.item.depth, error),
{
    lemma_refusal(report, task.item.path@, task.item.depth, error);
}

/// What a worker does with a directory once the system has answered: it asks for
/// the metadata of one that it has opened, and reads one that it has examined. It
/// closes what it has opened whenever it is done with it, reports what failed, and
/// goes on with the directories that it found once the read has ended, also if
/// the read failed.
pub proof fn law_directories_are_finished(
    state: DirState,
    event: DirEvent,
    rules: WalkRules,
    next: DirState,
)
    requires
        call_ensures(dir_step, (state, event, rules), next),
        crate::walk::steps::answers(state@, event),
    ensures
        state matches DirState::Open(item) ==> (event matches DirEvent::Opened(Ok(fd)) ==> {
            &&& next is Probe
            &&& next->Probe_0@ == item@
            &&& next->Probe_1 == fd
        }),
        state matches DirState::Open(item) ==> (event matches DirEvent::Opened(Err(e)) ==> {
            &&& next is Finish
            &&& next->Finish_0@.len() == 1
            &&& next->Finish_0@[0] is Report
            &&& tells_refusal(next->Finish_0@[0]->Report_0, item.path@, item.depth, e)
        }),
        state matches DirState::Probe(item, fd) ==> (event matches DirEvent::Probed(Err(e)) ==> {
            &&& next is Finish
            &&& next->Finish_0@.len() == 2
            &&& next->Finish_0@[0] is Close && next->Finish_0@[0]->Close_0 == fd
            &&& next->Finish_0@[1] is Report
            &&& tells_refusal(next->Finish_0@[1]->Report_0, item.path@, item.depth, e)
        }),
        state matches DirState::Probe(item, fd) ==> (event matches DirEvent::Probed(Ok(meta))
            ==> if rules.same_filesystem && meta.dev != item.root_dev {
            &&& next is Finish
            &&& next->Finish_0@.len() == 1
            &&& next->Finish_0@[0] is Close && next->Finish_0@[0]->Close_0 == fd
        } else {
            &&& next is Read
            &&& next->Read_0.item@ == item@
            &&& next->Read_0.rules == rules
            &&& next->Read_0.dev == meta.dev
            &&& next->Read_1 == fd
        }),
        state matches DirState::Read(task, fd) ==> (event matches DirEvent::ReadEnded(Ok(_)) ==> {
            &&& next is Finish
            &&& next->Finish_0@.len() == 2
            &&& next->Finish_0@[0] is Close && next->Finish_0@[0]->Close_0 == fd
            &&& next->Finish_0@[1] is Queue
            &&& next->Finish_0@[1]->Queue_0.work() == task.work()
        }),
        state matches DirState::Read(task, fd) ==> (event matches DirEvent::ReadEnded(Err(e)) ==> {
            &&& next is Finish
            &&& next->Finish_0@.len() == 3
            &&& next->Finish_0@[0] is Report
            &&& tells_refusal(next->Finish_0@[0]->Report_0, task.item.path@, task.item.depth, e)
            &&& next->Finish_0@[1] is Close && next->Finish_0@[1]->Close_0 == fd
            &&& next->Finish_0@[2] is Queue
            &&& next->Finish_0@[2]->Queue_0.work() == task.work()
        }),
{
    if let DirState::Finish(actions) = next {
        let said = crate::walk::steps::deeds(actions@);
        assert(next@ == crate::walk::steps::Phase::Finish(said));
        assert(said.len() == actions@.len());
        assert forall|i: int| 0 <= i < said.len() implies said[i] == (#[trigger] actions@[i])@ by {}
        match (state, event) {
            (DirState::Open(item), DirEvent::Opened(Err(e))) => {
                assert(actions@[0]@ is Report);
                lemma_refusal(actions@[0]->Report_0, item.path@, item.depth, e);
            },
            (DirState::Probe(item, fd), DirEvent::Probed(Err(e))) => {
                assert(actions@[0]@ is Close);
                assert(actions@[1]@ is Report);
                lemma_refusal(actions@[1]->Report_0, item.path@, item.depth, e);
            },
            (DirState::Probe(item, fd), DirEvent::Probed(Ok(meta))) => {
                assert(actions@[0]@ is Close);
            },
            (DirState::Read(task, fd), DirEvent::ReadEnded(Err(e))) => {
                assert(actions@[0]@ is Report);
                assert(actions@[1]@ is Close);
                assert(actions@[2]@ is Queue);
                lemma_refusal(actions@[0]->Report_0, task.item.path@, task.item.depth, e);
            },
            (DirState::Read(task, fd), DirEvent::ReadEnded(Ok(_))) => {
                assert(actions@[0]@ is Close);
                assert(actions@[1]@ is Queue);
            },
            _ => {},
        }
    }
    if let DirState::Read(task, fd) = next {
        assert(next@ == crate::walk::steps::Phase::Read(task@, fd));
        assert(task@.item == task.item@);
    }
}

/// A walk whose results nobody takes is cancelled; otherwise it goes on with what
/// follows the entry.
pub proof fn law_unheard_walks_are_cancelled(delivered: bool, after: AfterEmit, step: SendStep)
    requires
        call_ensures(send_step, (delivered, after), step),
    ensures
        step == SendStep::Cancel <==> !delivered,
        delivered ==> step == SendStep::Follow(after),
{
}

/// A worker takes what a source gives, asks again where another thread got in
/// between, and otherwise goes on from its own queue to the roots and from there
/// to every other worker in turn, never to itself.
pub proof fn law_sources_are_asked_in_turn(
    asked: Source,
    probe: Probe,
    own: usize,
    workers: usize,
    step: SearchStep,
)
    requires
        call_ensures(next_step, (asked, probe, own, workers), step),
        asked matches Source::Peer(i) ==> i < workers,
    ensures
        probe == Probe::Found <==> step == SearchStep::Take,
        probe == Probe::Retry ==> step == SearchStep::Ask(asked),
        probe == Probe::Empty && asked == Source::Local ==> step == SearchStep::Ask(
            Source::Injector,
        ),
        step matches SearchStep::Ask(Source::Peer(i)) ==> (probe == Probe::Empty ==> {
            &&& i < workers
            &&& i != own
            &&& match asked {
                Source::Peer(before) => i == before + 1 || (before + 1 == own && i == before + 2),
                _ => i == 0 || (own == 0 && i == 1),
            }
        }),
        probe == Probe::Empty && step == SearchStep::GiveUp ==> match asked {
            Source::Peer(before) => before + 1 == workers || (before + 1 == own && before + 2
                == workers),
            Source::Injector => workers == 0 || (own == 0 && workers == 1),
            Source::Local => false,
        },
        probe == Probe::Empty && asked != Source::Local ==> step != SearchStep::Ask(
            Source::Injector,
        ) && step != SearchStep::Ask(Source::Local),
{
}

/// A worker looks into its own queue first.
pub proof fn law_own_queue_comes_first(source: Source)
    requires
        call_ensures(first_source, (), source),
    ensures
        source == Source::Local,
{
}

/// A worker stops exactly if the walk was cancelled, or if it finds no work while
/// no directory is pending. It deals with a directory that it finds, and waits
/// where it finds none but some are pending.
pub proof fn law_workers_go_on(event: RunEvent, action: RunAction)
    requires
        call_ensures(run_step, (event,), action),
    ensures
        action == RunAction::Stop <==> event == RunEvent::Cancelled(true) || event
            == RunEvent::Pending(0),
        action == RunAction::Search <==> event == RunEvent::Cancelled(false),
        action == RunAction::Process <==> event == RunEvent::Searched(true),
        action == RunAction::CountPending <==> event == RunEvent::Searched(false),
        action == RunAction::Wait <==> (event matches RunEvent::Pending(n) && n > 0),
{
}

/// The first wait of an idle worker is 50 microseconds; each later one is twice as
/// long as the one before, until it stays the same.
pub proof fn law_waits_double(earlier: u32, micros: u64, later: u64)
    requires
        earlier < u32::MAX,
        call_ensures(idle_micros, (earlier,), micros),
        call_ensures(idle_micros, ((earlier + 1) as u32,), later),
    ensures
        earlier == 0 ==> micros == 50,
        earlier < 7 ==> later == 2 * micros,
        earlier >= 7 ==> later == micros,
{
    assert(doubled_wait(0) == 50);
}

/// The entries of a directory lie one level deeper than it.
pub proof fn law_depths_grow(depth: u16, below: u16)
    requires
        call_ensures(next_depth, (depth,), below),
    ensures
        is_one_deeper(below, depth),
{
}

/// A walk has the number of threads that it was given; where it was given none, as
/// many as the machine can run, but no more than 32, and 4 where the machine does
/// not say. There is always a worker.
pub proof fn law_walks_have_workers(
    config: &WalkConfig,
    available: Option<usize>,
    threads: usize,
    workers: usize,
)
    requires
        call_ensures(WalkConfig::resolved_threads, (config, available), threads),
        call_ensures(WalkConfig::worker_count, (config, available), workers),
    ensures
        config.threads > 0 ==> threads == config.threads,
        config.threads == 0 ==> threads <= 32,
        config.threads == 0 && available is None ==> threads == 4,
        config.threads == 0 ==> (available matches Some(n) ==> threads == n || (n > 32 && threads
            == 32)),
        workers >= 1,
        threads >= 1 ==> workers == threads,
{
}

/// How many of the first `n` results are entries.
pub open spec fn entries_before(results: Seq<Result<DirEntry, WalkError>>, n: int) -> nat
    decreases n,
{
    if n <= 0 {
        0
    } else {
        entries_before(results, n - 1) + if results[n - 1] is Ok {
            1nat
        } else {
            0
        }
    }
}

proof fn lemma_collected(results: Seq<Result<DirEntry, WalkError>>, n: int, i: int)
    requires
        0 <= n <= results.len(),
    ensures
        ({
            let entries = crate::walk::walker::entries_of(results.take(n));
            let errors = crate::walk::walker::errors_of(results.take(n));
            let at = entries_before(results, i) as int;
            &&& entries.len() == entries_before(results, n)
            &&& entries.len() + errors.len() == n
            &&& 0 <= i < n && results[i] is Ok ==> at < entries.len() && entries[at]
                == results[i]->Ok_0
            &&& 0 <= i < n && results[i] is Err ==> 0 <= i - at < errors.len() && errors[i - at]
                == results[i]->Err_0
        }),
    decreases n,
{
    if n > 0 {
        lemma_collected(results, n - 1, i);
        assert(results.take(n).drop_last() =~= results.take(n - 1));
        assert(results.take(n).last() == results[n - 1]);
    }
}

/// Collecting the results of a walk keeps every entry and every error, each kind
/// in its order.
pub proof fn law_results_are_collected(
    walker: &Walker,
    results: Vec<Result<DirEntry, WalkError>>,
    collected: (Vec<DirEntry>, Vec<WalkError>),
    i: int,
)
    requires
        call_ensures(Walker::walk_collect, (walker, results), collected),
        0 <= i < results@.len(),
    ensures
        collected.0@.len() + collected.1@.len() == results@.len(),
        results@[i] matches Ok(entry) ==> {
            let at = entries_before(results@, i) as int;
            at < collected.0@.len() && collected.0@[at] == entry
        },
        results@[i] matches Err(error) ==> {
            let at = i - entries_before(results@, i);
            0 <= at < collected.1@.len() && collected.1@[at] == error
        },
{
    let n = results@.len() as int;
    assert(results@.take(n) =~= results@);
    lemma_collected(results@, n, i);
}

} // verus!
