//! How a worker looks for work, and when it stops.
use vstd::prelude::*;

verus! {

/// The places where a worker looks for a directory to read.
#[derive(Debug, Clone, Copy, PartialEq, Eq, Structural)]
pub enum Source {
    /// Its own queue.
    Local,
    /// The queue that the roots were put into.
    Injector,
    /// The queue of another worker.
    Peer(usize),
}

/// What asking a source gave.
#[derive(Debug, Clone, Copy, PartialEq, Eq, Structural)]
pub enum Probe {
    Found,
    Empty,
    /// Another thread got in between.
    Retry,
}

/// What a worker does next in its search.
#[derive(Debug, Clone, Copy, PartialEq, Eq, Structural)]
pub enum SearchStep {
    Take,
    Ask(Source),
    GiveUp,
}

/// The sources that a worker asks one after the other while all are empty: its
/// own queue, the roots, then every other worker.
pub open spec fn search_order(own: usize, workers: usize) -> Seq<Source> {
    let others = if own < workers {
        (workers - 1) as nat
    } else {
        workers as nat
    };
    seq![Source::Local, Source::Injector] + Seq::new(
        others,
        |k: int|
            Source::Peer(
                if k < own {
                    k as usize
                } else {
                    (k + 1) as usize
                },
            ),
    )
}

/// The first worker from `from` on that is not `own`.
pub open spec fn peer_from(from: int, own: int, workers: int) -> Option<int> {
    let next = if from == own {
        from + 1
    } else {
        from
    };
    if next < workers {
        Some(next)
    } else {
        None
    }
}

/// What follows where a source was empty.
pub open spec fn after_empty(asked: Source, own: usize, workers: usize) -> SearchStep {
    match asked {
        Source::Local => SearchStep::Ask(Source::Injector),
        Source::Injector => ask_peer(peer_from(0, own as int, workers as int)),
        Source::Peer(i) => ask_peer(peer_from(i + 1, own as int, workers as int)),
    }
}

pub open spec fn ask_peer(peer: Option<int>) -> SearchStep {
    match peer {
        Some(i) => SearchStep::Ask(Source::Peer(i as usize)),
        None => SearchStep::GiveUp,
    }
}

/// Starts a search: a worker first looks into its own queue.
pub fn first_source() -> (source: Source)
    ensures
        source == Source::Local,
{
    Source::Local
}

fn next_peer(from: usize, own: usize, workers: usize) -> (step: SearchStep)
    requires
        from <= workers,
    ensures
        step == ask_peer(peer_from(from as int, own as int, workers as int)),
{
    if from >= workers {
        return SearchStep::GiveUp;
    }
    let next: usize = if from == own {
        from + 1
    } else {
        from
    };
    if next < workers {
        SearchStep::Ask(Source::Peer(next))
    } else {
        SearchStep::GiveUp
    }
}

/// Decides what a worker does once it has asked a source.
pub fn next_step(asked: Source, probe: Probe, own: usize, workers: usize) -> (step: SearchStep)
    requires
        asked matches Source::Peer(i) ==> i < workers,
    ensures
        step == (match probe {
            Probe::Found => SearchStep::Take,
            Probe::Retry => SearchStep::Ask(asked),
            Probe::Empty => after_empty(asked, own, workers),
        }),
        step matches SearchStep::Ask(Source::Peer(i)) ==> i < workers,
{
    match probe {
        Probe::Found => SearchStep::Take,
        Probe::Retry => SearchStep::Ask(asked),
        Probe::Empty => {
            match asked {
                Source::Local => SearchStep::Ask(Source::Injector),
                Source::Injector => next_peer(0, own, workers),
                Source::Peer(i) => next_peer(i + 1, own, workers),
            }
        },
    }
}

/// A search is complete: as long as every source is empty, a worker asks the
/// sources of [`search_order`] one after the other and then gives up. Those
/// are its own queue, the roots and each other worker, none of them twice, and
/// never itself as another.
pub proof fn law_search_is_complete(own: usize, workers: usize)
    ensures
        search_order(own, workers)[0] == Source::Local,
        forall|k: int|
            0 <= k < search_order(own, workers).len() ==> after_empty(
                #[trigger] search_order(own, workers)[k],
                own,
                workers,
            ) == (if k + 1 < search_order(own, workers).len() {
                SearchStep::Ask(search_order(own, workers)[k + 1])
            } else {
                SearchStep::GiveUp
            }),
        search_order(own, workers).no_duplicates(),
        search_order(own, workers).contains(Source::Injector),
        forall|w: usize|
            w < workers && w != own ==> #[trigger] search_order(own, workers).contains(
                Source::Peer(w),
            ),
        !search_order(own, workers).contains(Source::Peer(own)),
{
    let order = search_order(own, workers);
    assert(order[1] == Source::Injector);
    assert forall|w: usize| w < workers && w != own implies #[trigger] order.contains(
        Source::Peer(w),
    ) by {
        if w < own {
            assert(order[w + 2] == Source::Peer(w));
        } else {
            assert(order[w + 1] == Source::Peer(w));
        }
    }
}

/// What a worker has learnt in its loop.
#[derive(Debug, Clone, Copy, PartialEq, Eq, Structural)]
pub enum RunEvent {
    /// Whether the walk was cancelled.
    Cancelled(bool),
    /// Whether the search for work found a directory.
    Searched(bool),
    /// How many directories of the walk are not finished yet.
    Pending(usize),
}

/// What a worker does next in its loop.
#[derive(Debug, Clone, Copy, PartialEq, Eq, Structural)]
pub enum RunAction {
    Stop,
    Search,
    Process,
    CountPending,
    Wait,
}

/// The next action of a worker.
pub open spec fn run_action(event: RunEvent) -> RunAction {
    match event {
        RunEvent::Cancelled(cancelled) => if cancelled {
            RunAction::Stop
        } else {
            RunAction::Search
        },
        RunEvent::Searched(found) => if found {
            RunAction::Process
        } else {
            RunAction::CountPending
        },
        RunEvent::Pending(n) => if n == 0 {
            RunAction::Stop
        } else {
            RunAction::Wait
        },
    }
}

/// Decides the next action of a worker. It stops once the walk is cancelled,
/// or once it finds no work while no directory is pending.
pub fn run_step(event: RunEvent) -> (action: RunAction)
    ensures
        action == run_action(event),
{
    match event {
        RunEvent::Cancelled(cancelled) => {
            if cancelled {
                RunAction::Stop
            } else {
                RunAction::Search
            }
        },
        RunEvent::Searched(found) => {
            if found {
                RunAction::Process
            } else {
                RunAction::CountPending
            }
        },
        RunEvent::Pending(n) => {
            if n == 0 {
                RunAction::Stop
            } else {
                RunAction::Wait
            }
        },
    }
}

/// How long a worker that finds no work waits at first, in microseconds.
pub const FIRST_WAIT: u64 = 50;

/// How often the wait is doubled at most.
pub const MAX_DOUBLINGS: u32 = 7;

/// The wait after `doublings` doublings.
pub open spec fn doubled_wait(doublings: int) -> int
    decreases doublings,
{
    if doublings <= 0 {
        FIRST_WAIT as int
    } else {
        2 * doubled_wait(doublings - 1)
    }
}

proof fn lemma_wait_is_short(doublings: int)
    requires
        0 <= doublings <= MAX_DOUBLINGS,
    ensures
        doubled_wait(doublings) <= 128 * FIRST_WAIT,
{
    reveal_with_fuel(doubled_wait, 9);
}

/// How long a worker waits, in microseconds, before it searches again, where
/// `earlier` searches in a row found nothing before the last one: each wait is
/// twice the one before, up to a limit.
pub fn idle_micros(earlier: u32) -> (micros: u64)
    ensures
        micros == doubled_wait(
            if earlier < MAX_DOUBLINGS {
                earlier as int
            } else {
                MAX_DOUBLINGS as int
            },
        ),
{
    let mut micros: u64 = FIRST_WAIT;
    let mut done: u32 = 0;
    while done < earlier && done < MAX_DOUBLINGS
        invariant
            done <= earlier,
            done <= MAX_DOUBLINGS,
            micros == doubled_wait(done as int),
        decreases MAX_DOUBLINGS - done,
    {
        proof {
            lemma_wait_is_short(done as int);
        }
        micros = 2 * micros;
        done = done + 1;
    }
    micros
}

/// The directories of a walk that are not finished: those in the queues, those
/// that some worker has in hand, and the number that the workers keep of both.
pub struct Backlog {
    pub queued: nat,
    pub in_hand: nat,
    pub pending: nat,
}

/// What happens to the directories of a walk.
pub enum BacklogStep {
    /// A worker takes a directory out of a queue.
    Take,
    /// A worker counts a directory that it has found as pending.
    Count,
    /// The worker that has counted a directory puts it into its queue.
    Queue,
    /// A worker is done with a directory, and counts it no longer.
    Finish,
}

/// The backlog after a step. A directory that was counted and is not queued
/// yet is in the hand of the worker that found it.
pub open spec fn backlog_after(b: Backlog, step: BacklogStep) -> Backlog {
    match step {
        BacklogStep::Take => Backlog {
            queued: (b.queued - 1) as nat,
            in_hand: b.in_hand + 1,
            ..b
        },
        BacklogStep::Count => Backlog { in_hand: b.in_hand + 1, pending: b.pending + 1, ..b },
        BacklogStep::Queue => Backlog {
            queued: b.queued + 1,
            in_hand: (b.in_hand - 1) as nat,
            ..b
        },
        BacklogStep::Finish => Backlog {
            in_hand: (b.in_hand - 1) as nat,
            pending: (b.pending - 1) as nat,
            ..b
        },
    }
}

/// Whether a step can happen.
pub open spec fn can_happen(b: Backlog, step: BacklogStep) -> bool {
    match step {
        BacklogStep::Take => b.queued > 0,
        BacklogStep::Count => b.in_hand > 0,
        BacklogStep::Queue => b.in_hand > 0,
        BacklogStep::Finish => b.in_hand > 0 && b.pending > 0,
    }
}

/// The backlog after the first `n` steps of a walk of the given number of
/// roots.
pub open spec fn backlog(roots: nat, steps: Seq<BacklogStep>, n: int) -> Backlog
    decreases n,
{
    if n <= 0 {
        Backlog { queued: roots, in_hand: 0, pending: roots }
    } else {
        backlog_after(backlog(roots, steps, n - 1), steps[n - 1])
    }
}

/// No directory is lost: whatever the workers do, and in whatever order, the
/// number of pending directories that makes a worker stop is reached only when
/// no directory is in a queue or in the hand of a worker.
pub proof fn law_workers_stop_when_done(roots: nat, steps: Seq<BacklogStep>, n: int)
    requires
        0 <= n <= steps.len(),
        forall|i: int| 0 <= i < n ==> can_happen(backlog(roots, steps, i), #[trigger] steps[i]),
    ensures
        backlog(roots, steps, n).pending == backlog(roots, steps, n).queued + backlog(
            roots,
            steps,
            n,
        ).in_hand,
        backlog(roots, steps, n).pending <= usize::MAX ==> (run_action(
            RunEvent::Pending(backlog(roots, steps, n).pending as usize),
        ) == RunAction::Stop <==> backlog(roots, steps, n).queued == 0 && backlog(
            roots,
            steps,
            n,
        ).in_hand == 0),
    decreases n,
{
    if n > 0 {
        law_workers_stop_when_done(roots, steps, n - 1);
        assert(can_happen(backlog(roots, steps, n - 1), steps[n - 1]));
    }
}

} // verus!
