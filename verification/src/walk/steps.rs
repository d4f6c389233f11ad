//! The steps in which a worker deals with a directory.
use crate::sys::{EntryMetadata, SysError};
use crate::walk::error::{Failure, WalkError};
use crate::walk::worker::{
    device_allowed, failure, nul_failure, nul_path_error, start_directory, AfterEmit, DirStart,
    DirTask, WalkRules, Work, WorkItem,
};
use vstd::prelude::*;

verus! {

/// What is left to do with a directory whose outcome is settled.
pub enum DirAction {
    /// Hand an error on.
    Report(WalkError),
    /// Close the descriptor.
    Close(i32),
    /// Queue the directories that reading this one has led to.
    Queue(DirTask),
}

/// How far a worker has come with a directory.
pub enum DirState {
    /// It is to be opened.
    Open(WorkItem),
    /// It is open, and its metadata is to be asked for.
    Probe(WorkItem, i32),
    /// It is open, and its entries are to be read.
    Read(DirTask, i32),
    /// These actions, in order, are all that is left.
    Finish(Vec<DirAction>),
}

/// What the system answered.
pub enum DirEvent {
    Opened(Result<i32, SysError>),
    Probed(Result<EntryMetadata, SysError>),
    ReadEnded(Result<(), SysError>),
}

/// What a [`DirAction`] says.
pub enum Deed {
    Report(Failure),
    Close(i32),
    Queue(Seq<Work>),
}

/// What a [`DirTask`] says: the directory and what reading it has led to.
pub struct Reading {
    pub item: Work,
    pub rules: WalkRules,
    pub dev: u64,
    pub work: Seq<Work>,
}

/// What a [`DirState`] says.
pub enum Phase {
    Open(Work),
    Probe(Work, i32),
    Read(Reading, i32),
    Finish(Seq<Deed>),
}

impl View for DirAction {
    type V = Deed;

    open spec fn view(&self) -> Deed {
        match self {
            DirAction::Report(error) => Deed::Report(error@),
            DirAction::Close(fd) => Deed::Close(*fd),
            DirAction::Queue(task) => Deed::Queue(task.work()),
        }
    }
}

impl View for DirTask {
    type V = Reading;

    open spec fn view(&self) -> Reading {
        Reading { item: self.item@, rules: self.rules, dev: self.dev, work: self.work() }
    }
}

pub open spec fn deeds(actions: Seq<DirAction>) -> Seq<Deed> {
    actions.map_values(|action: DirAction| action@)
}

impl View for DirState {
    type V = Phase;

    open spec fn view(&self) -> Phase {
        match self {
            DirState::Open(item) => Phase::Open(item@),
            DirState::Probe(item, fd) => Phase::Probe(item@, *fd),
            DirState::Read(task, fd) => Phase::Read(task@, *fd),
            DirState::Finish(actions) => Phase::Finish(deeds(actions@)),
        }
    }
}

/// Where a worker starts with a directory. A path that cannot be handed to the
/// system is reported at once.
pub open spec fn begun(item: Work) -> Phase {
    if item.path.contains(0u8) {
        Phase::Finish(seq![Deed::Report(nul_failure(item.path, item.depth))])
    } else {
        Phase::Open(item)
    }
}

/// Whether an event answers what the state asks for.
pub open spec fn answers(phase: Phase, event: DirEvent) -> bool {
    match phase {
        Phase::Open(_) => event is Opened,
        Phase::Probe(_, _) => event is Probed,
        Phase::Read(_, _) => event is ReadEnded,
        Phase::Finish(_) => false,
    }
}

/// Where a worker comes from a state by an event.
pub open spec fn next_phase(rules: WalkRules, phase: Phase, event: DirEvent) -> Phase {
    match (phase, event) {
        (Phase::Open(item), DirEvent::Opened(Ok(fd))) => Phase::Probe(item, fd),
        (Phase::Open(item), DirEvent::Opened(Err(e))) => Phase::Finish(
            seq![Deed::Report(failure(item.path, item.depth, e))],
        ),
        (Phase::Probe(item, fd), DirEvent::Probed(Err(e))) => Phase::Finish(
            seq![Deed::Close(fd), Deed::Report(failure(item.path, item.depth, e))],
        ),
        (Phase::Probe(item, fd), DirEvent::Probed(Ok(meta))) => if device_allowed(
            rules,
            item,
            meta.dev,
        ) {
            Phase::Read(Reading { item, rules, dev: meta.dev, work: Seq::empty() }, fd)
        } else {
            Phase::Finish(seq![Deed::Close(fd)])
        },
        (Phase::Read(reading, fd), DirEvent::ReadEnded(Err(e))) => Phase::Finish(
            seq![
                Deed::Report(failure(reading.item.path, reading.item.depth, e)),
                Deed::Close(fd),
                Deed::Queue(reading.work),
            ],
        ),
        (Phase::Read(reading, fd), DirEvent::ReadEnded(Ok(_))) => Phase::Finish(
            seq![Deed::Close(fd), Deed::Queue(reading.work)],
        ),
        _ => phase,
    }
}

/// Starts on a directory.
pub fn begin_directory(item: WorkItem) -> (state: DirState)
    ensures
        state@ == begun(item@),
{
    match nul_path_error(item.path.as_slice(), item.depth) {
        Some(error) => {
            let mut actions: Vec<DirAction> = Vec::new();
            actions.push(DirAction::Report(error));
            assert(deeds(actions@) =~= seq![Deed::Report(nul_failure(item.path@, item.depth))]);
            DirState::Finish(actions)
        },
        None => DirState::Open(item),
    }
}

/// Decides what follows once the system has answered.
pub fn dir_step(state: DirState, event: DirEvent, rules: WalkRules) -> (next: DirState)
    requires
        answers(state@, event),
    ensures
        next@ == next_phase(rules, state@, event),
{
    let ghost goal = next_phase(rules, state@, event);
    let mut actions: Vec<DirAction> = Vec::new();
    match (state, event) {
        (DirState::Open(item), DirEvent::Opened(Ok(fd))) => {
            return DirState::Probe(item, fd);
        },
        (DirState::Open(item), DirEvent::Opened(Err(e))) => {
            if let DirStart::Failed(error) = start_directory(item, rules, Err(e)) {
                actions.push(DirAction::Report(error));
            }
        },
        (DirState::Probe(item, fd), DirEvent::Probed(probe)) => {
            match start_directory(item, rules, probe) {
                DirStart::Read(task) => {
                    assert(task.work() =~= Seq::<Work>::empty());
                    return DirState::Read(task, fd);
                },
                DirStart::OtherFilesystem => actions.push(DirAction::Close(fd)),
                DirStart::Failed(error) => {
                    actions.push(DirAction::Close(fd));
                    actions.push(DirAction::Report(error));
                },
            }
        },
        (DirState::Read(task, fd), DirEvent::ReadEnded(outcome)) => {
            if let Err(e) = outcome {
                actions.push(DirAction::Report(task.read_error(e)));
            }
            actions.push(DirAction::Close(fd));
            actions.push(DirAction::Queue(task));
        },
        (other, _) => {
            return other;
        },
    }
    assert(deeds(actions@) =~= goal->Finish_0);
    DirState::Finish(actions)
}

/// What follows once an entry was handed on, or could not be.
#[derive(Debug, Clone, Copy, PartialEq, Eq, Structural)]
pub enum SendStep {
    /// Nobody listens any more: the walk is cancelled.
    Cancel,
    Follow(AfterEmit),
}

/// Decides what follows once a worker has tried to hand an entry on.
pub fn send_step(delivered: bool, after: AfterEmit) -> (step: SendStep)
    ensures
        step == (if delivered {
            SendStep::Follow(after)
        } else {
            SendStep::Cancel
        }),
{
    if delivered {
        SendStep::Follow(after)
    } else {
        SendStep::Cancel
    }
}

/// All that a worker does with a directory after it has asked the system, given
/// the answers and the directories that reading it led to.
pub open spec fn all_deeds(
    rules: WalkRules,
    item: Work,
    opened: Result<i32, SysError>,
    probed: Result<EntryMetadata, SysError>,
    work: Seq<Work>,
    read: Result<(), SysError>,
) -> Seq<Deed> {
    match begun(item) {
        Phase::Finish(deeds) => deeds,
        begun => match next_phase(rules, begun, DirEvent::Opened(opened)) {
            Phase::Finish(deeds) => deeds,
            open => match next_phase(rules, open, DirEvent::Probed(probed)) {
                Phase::Finish(deeds) => deeds,
                Phase::Read(reading, fd) => next_phase(
                    rules,
                    Phase::Read(Reading { work, ..reading }, fd),
                    DirEvent::ReadEnded(read),
                )->Finish_0,
                _ => Seq::empty(),
            },
        },
    }
}

/// The errors that a directory gives, where `probe` is what opening it and
/// asking for its metadata gave, and `read` the error that ended its listing.
pub open spec fn failures_of(
    rules: WalkRules,
    item: Work,
    probe: Result<EntryMetadata, SysError>,
    read: Option<SysError>,
) -> Seq<Failure> {
    if item.path.contains(0u8) {
        seq![nul_failure(item.path, item.depth)]
    } else {
        match probe {
            Err(e) => seq![failure(item.path, item.depth, e)],
            Ok(meta) => match read {
                Some(e) if device_allowed(rules, item, meta.dev) => seq![
                    failure(item.path, item.depth, e),
                ],
                _ => Seq::empty(),
            },
        }
    }
}

/// Whether the deed at `at` closes `fd`, and no other closes anything.
pub open spec fn only_close(deeds: Seq<Deed>, at: int, fd: i32) -> bool {
    &&& 0 <= at < deeds.len()
    &&& deeds[at] == Deed::Close(fd)
    &&& forall|i: int| 0 <= i < deeds.len() && i != at ==> !(#[trigger] deeds[i] is Close)
}

/// A directory that was opened is closed exactly once, whatever happens to it,
/// and one that was not is never closed. The directories that it led to are
/// queued at most once, after the whole read and the close.
pub proof fn law_directory_is_closed_once(
    rules: WalkRules,
    item: Work,
    opened: Result<i32, SysError>,
    probed: Result<EntryMetadata, SysError>,
    work: Seq<Work>,
    read: Result<(), SysError>,
)
    ensures
        ({
            let deeds = all_deeds(rules, item, opened, probed, work, read);
            if opened is Ok && !item.path.contains(0u8) {
                exists|at: int| #[trigger] only_close(deeds, at, opened->Ok_0)
            } else {
                forall|i: int| 0 <= i < deeds.len() ==> !(#[trigger] deeds[i] is Close)
            }
        }),
        ({
            let deeds = all_deeds(rules, item, opened, probed, work, read);
            forall|i: int, j: int|
                #![trigger deeds[i], deeds[j]]
                0 <= i < deeds.len() && 0 <= j < deeds.len() && deeds[i] is Queue ==> {
                    &&& deeds[i] == Deed::Queue(work)
                    &&& i == deeds.len() - 1
                    &&& deeds[i - 1] is Close
                    &&& j != i ==> !(deeds[j] is Queue)
                }
        }),
{
    let deeds = all_deeds(rules, item, opened, probed, work, read);
    if opened is Ok && !item.path.contains(0u8) {
        let at = if probed is Ok && device_allowed(rules, item, probed->Ok_0.dev) && read is Err {
            1
        } else {
            0
        };
        assert(only_close(deeds, at, opened->Ok_0));
    }
}

/// The reports among deeds, in order.
pub open spec fn reports(deeds: Seq<Deed>) -> Seq<Failure>
    decreases deeds.len(),
{
    if deeds.len() == 0 {
        Seq::empty()
    } else {
        match deeds.last() {
            Deed::Report(failure) => reports(deeds.drop_last()).push(failure),
            _ => reports(deeds.drop_last()),
        }
    }
}

/// A directory that cannot be opened, examined or read to its end is reported
/// once, with the error that stopped it; any other is not reported.
pub proof fn law_failed_directory_is_reported_once(
    rules: WalkRules,
    item: Work,
    opened: Result<i32, SysError>,
    probed: Result<EntryMetadata, SysError>,
    work: Seq<Work>,
    read: Result<(), SysError>,
)
    ensures
        reports(all_deeds(rules, item, opened, probed, work, read)) == failures_of(
            rules,
            item,
            match opened {
                Ok(_) => probed,
                Err(e) => Err(e),
            },
            match read {
                Ok(_) => None,
                Err(e) => Some(e),
            },
        ),
{
    let deeds = all_deeds(rules, item, opened, probed, work, read);
    reveal_with_fuel(reports, 4);
    if deeds.len() > 0 {
        let d1 = deeds.drop_last();
        if d1.len() > 0 {
            let d2 = d1.drop_last();
            if d2.len() > 0 {
                assert(d2.drop_last() =~= Seq::<Deed>::empty());
            } else {
                assert(d2 =~= Seq::<Deed>::empty());
            }
        } else {
            assert(d1 =~= Seq::<Deed>::empty());
        }
    }
    assert(reports(deeds) =~= failures_of(
        rules,
        item,
        match opened {
            Ok(_) => probed,
            Err(e) => Err(e),
        },
        match read {
            Ok(_) => None,
            Err(e) => Some(e),
        },
    ));
}

} // verus!
