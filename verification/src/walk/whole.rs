//! What a whole walk hands out, whatever the order in which its directories are
//! read.
use crate::sys::{EntryMetadata, RawEntry, SysError};
use crate::walk::entry::{depth_below, Entry};
use crate::walk::error::Failure;
use crate::walk::steps::failures_of;
use crate::walk::worker::{
    completed, depth_allowed, device_allowed, failure, is_descended, looked, nul_failure, seed,
    work_below, AfterEmit, Looked, WalkRules, Work,
};
use vstd::multiset::Multiset;
use vstd::prelude::*;

verus! {

/// The answers of a file system that does not change.
pub struct Answers {
    /// What opening a directory and asking for its metadata gives.
    pub probe: spec_fn(Seq<u8>) -> Result<EntryMetadata, SysError>,
    /// What reading a directory lists.
    pub listing: spec_fn(Seq<u8>) -> Seq<RawEntry>,
    /// The error that ends the listing of a directory, if one does.
    pub read_error: spec_fn(Seq<u8>) -> Option<SysError>,
    /// What asking for the metadata of an entry of a directory gives.
    pub stat: spec_fn(Seq<u8>, Seq<u8>) -> Option<EntryMetadata>,
    /// Whether a path leads to a directory.
    pub leads_to_dir: spec_fn(Seq<u8>) -> bool,
}

/// The directories that a walk starts with.
pub open spec fn seeds(a: Answers, roots: Seq<Seq<u8>>) -> Seq<Work>
    decreases roots.len(),
{
    if roots.len() == 0 {
        Seq::empty()
    } else {
        let root = roots.last();
        let before = seeds(a, roots.drop_last());
        match (a.probe)(root) {
            Ok(meta) if !root.contains(0u8) => before.push(seed(root, meta)),
            _ => before,
        }
    }
}

/// The errors of the roots that a walk cannot start with.
pub open spec fn seed_failures(a: Answers, roots: Seq<Seq<u8>>) -> Seq<Failure>
    decreases roots.len(),
{
    if roots.len() == 0 {
        Seq::empty()
    } else {
        let root = roots.last();
        let before = seed_failures(a, roots.drop_last());
        if root.contains(0u8) {
            before.push(nul_failure(root, 0))
        } else {
            match (a.probe)(root) {
                Ok(_) => before,
                Err(e) => before.push(failure(root, 0, e)),
            }
        }
    }
}

/// The device of a directory, if it is read.
pub open spec fn device_read(rules: WalkRules, a: Answers, w: Work) -> Option<u64> {
    match (a.probe)(w.path) {
        Ok(meta) if !w.path.contains(0u8) && device_allowed(rules, w, meta.dev) => Some(meta.dev),
        _ => None,
    }
}

/// The entry that is sent for an entry of a listing, and what follows it.
pub open spec fn handled(rules: WalkRules, a: Answers, w: Work, dev: u64, raw: RawEntry) -> Option<
    (Entry, AfterEmit),
> {
    match looked(rules, w, dev, raw) {
        Looked::Skip => None,
        Looked::Emit(entry, after) => Some((entry, after)),
        Looked::Stat => Some(completed(w, dev, raw, (a.stat)(w.path, raw.name))),
    }
}

/// The entries that are sent for a listing.
pub open spec fn sent_for(
    rules: WalkRules,
    a: Answers,
    w: Work,
    dev: u64,
    raws: Seq<RawEntry>,
) -> Seq<Entry>
    decreases raws.len(),
{
    if raws.len() == 0 {
        Seq::empty()
    } else {
        let before = sent_for(rules, a, w, dev, raws.drop_last());
        match handled(rules, a, w, dev, raws.last()) {
            Some((entry, _)) => before.push(entry),
            None => before,
        }
    }
}

/// The names in a listing that are read as directories, where the depth allows.
pub open spec fn names_for(
    rules: WalkRules,
    a: Answers,
    w: Work,
    dev: u64,
    raws: Seq<RawEntry>,
) -> Seq<Seq<u8>>
    decreases raws.len(),
{
    if raws.len() == 0 {
        Seq::empty()
    } else {
        let before = names_for(rules, a, w, dev, raws.drop_last());
        match handled(rules, a, w, dev, raws.last()) {
            Some((entry, after)) if is_descended(after, (a.leads_to_dir)(entry.path)) => before.push(
                raws.last().name,
            ),
            _ => before,
        }
    }
}

/// The entries that reading a directory sends.
pub open spec fn dir_entries(rules: WalkRules, a: Answers, w: Work) -> Seq<Entry> {
    match device_read(rules, a, w) {
        Some(dev) => sent_for(rules, a, w, dev, (a.listing)(w.path)),
        None => Seq::empty(),
    }
}

/// The errors that a directory gives.
pub open spec fn dir_failures(rules: WalkRules, a: Answers, w: Work) -> Seq<Failure> {
    failures_of(rules, w, (a.probe)(w.path), (a.read_error)(w.path))
}

/// The results that a directory gives: its entries and its errors.
pub open spec fn dir_results(rules: WalkRules, a: Answers, w: Work) -> Seq<
    Result<Entry, Failure>,
> {
    dir_entries(rules, a, w).map_values(|e: Entry| Ok::<Entry, Failure>(e)) + dir_failures(
        rules,
        a,
        w,
    ).map_values(|f: Failure| Err::<Entry, Failure>(f))
}

/// The directories that reading a directory leads to.
pub open spec fn dir_work(rules: WalkRules, a: Answers, w: Work) -> Seq<Work> {
    match device_read(rules, a, w) {
        Some(dev) => work_below(rules, w, names_for(rules, a, w, dev, (a.listing)(w.path))),
        None => Seq::empty(),
    }
}

/// Whether at most `levels` directories lie one below the other from `w` on.
pub open spec fn ends(rules: WalkRules, a: Answers, w: Work, levels: nat) -> bool
    decreases levels,
{
    levels > 0 && forall|i: int|
        0 <= i < dir_work(rules, a, w).len() ==> ends(
            rules,
            a,
            #[trigger] dir_work(rules, a, w)[i],
            (levels - 1) as nat,
        )
}

pub open spec fn all_end(rules: WalkRules, a: Answers, ws: Seq<Work>, levels: nat) -> bool {
    forall|i: int| 0 <= i < ws.len() ==> ends(rules, a, #[trigger] ws[i], levels)
}

/// The results of the first `levels` levels of directories from `w` on.
pub open spec fn subtree(rules: WalkRules, a: Answers, w: Work, levels: nat) -> Multiset<Result<Entry, Failure>>
    decreases levels, 0nat,
{
    if levels == 0 {
        Multiset::empty()
    } else {
        dir_results(rules, a, w).to_multiset().add(
            subtrees(rules, a, dir_work(rules, a, w), (levels - 1) as nat),
        )
    }
}

/// The results of the first `levels` levels from each of the directories on.
pub open spec fn subtrees(
    rules: WalkRules,
    a: Answers,
    ws: Seq<Work>,
    levels: nat,
) -> Multiset<Result<Entry, Failure>>
    decreases levels, ws.len(),
{
    if ws.len() == 0 {
        Multiset::empty()
    } else {
        subtrees(rules, a, ws.drop_last(), levels).add(subtree(rules, a, ws.last(), levels))
    }
}

proof fn lemma_subtrees_remove(rules: WalkRules, a: Answers, ws: Seq<Work>, i: int, levels: nat)
    requires
        0 <= i < ws.len(),
    ensures
        subtrees(rules, a, ws, levels) == subtrees(rules, a, ws.remove(i), levels).add(
            subtree(rules, a, ws[i], levels),
        ),
    decreases ws.len(),
{
    let fewer = ws.drop_last();
    if i == ws.len() - 1 {
        assert(ws.remove(i) =~= fewer);
    } else {
        lemma_subtrees_remove(rules, a, fewer, i, levels);
        assert(ws.remove(i).drop_last() =~= fewer.remove(i));
        assert(ws.remove(i).last() == ws.last());
        assert(subtrees(rules, a, ws, levels) =~= subtrees(rules, a, ws.remove(i), levels).add(
            subtree(rules, a, ws[i], levels),
        ));
    }
}

proof fn lemma_subtrees_joined(
    rules: WalkRules,
    a: Answers,
    xs: Seq<Work>,
    ys: Seq<Work>,
    levels: nat,
)
    ensures
        subtrees(rules, a, xs + ys, levels) == subtrees(rules, a, xs, levels).add(
            subtrees(rules, a, ys, levels),
        ),
    decreases ys.len(),
{
    if ys.len() == 0 {
        assert(xs + ys =~= xs);
    } else {
        assert((xs + ys).drop_last() =~= xs + ys.drop_last());
        lemma_subtrees_joined(rules, a, xs, ys.drop_last(), levels);
    }
    assert(subtrees(rules, a, xs + ys, levels) =~= subtrees(rules, a, xs, levels).add(
        subtrees(rules, a, ys, levels),
    ));
}

/// Below a walk that ends there is nothing more.
proof fn lemma_nothing_more(rules: WalkRules, a: Answers, w: Work, levels: nat)
    requires
        ends(rules, a, w, levels),
    ensures
        ends(rules, a, w, levels + 1),
        subtree(rules, a, w, levels + 1) == subtree(rules, a, w, levels),
    decreases levels, 0nat,
{
    let below = dir_work(rules, a, w);
    assert(all_end(rules, a, below, (levels - 1) as nat));
    lemma_nothing_more_below(rules, a, below, (levels - 1) as nat);
}

proof fn lemma_nothing_more_below(rules: WalkRules, a: Answers, ws: Seq<Work>, levels: nat)
    requires
        all_end(rules, a, ws, levels),
    ensures
        all_end(rules, a, ws, levels + 1),
        subtrees(rules, a, ws, levels + 1) == subtrees(rules, a, ws, levels),
    decreases levels, ws.len() + 1,
{
    if ws.len() > 0 {
        let fewer = ws.drop_last();
        assert(all_end(rules, a, fewer, levels)) by {
            assert forall|i: int| 0 <= i < fewer.len() implies ends(
                rules,
                a,
                #[trigger] fewer[i],
                levels,
            ) by {
                assert(fewer[i] == ws[i]);
            }
        }
        lemma_nothing_more_below(rules, a, fewer, levels);
        assert(ws[ws.len() - 1] == ws.last());
        lemma_nothing_more(rules, a, ws.last(), levels);
        assert forall|i: int| 0 <= i < ws.len() implies ends(
            rules,
            a,
            #[trigger] ws[i],
            levels + 1,
        ) by {
            if i < fewer.len() {
                assert(fewer[i] == ws[i]);
            }
        }
    }
}

/// A walk under way: the directories in the queues, those that some worker is
/// reading, and the results of those that are done.
pub struct WalkRun {
    pub queued: Seq<Work>,
    pub in_hand: Seq<Work>,
    pub sent: Multiset<Result<Entry, Failure>>,
}

/// What a worker does in a walk.
pub enum WalkMove {
    /// It takes some directory out of a queue.
    Take(int),
    /// It is done with a directory that it has taken, and queues those that
    /// this one led to.
    Finish(int),
}

pub open spec fn can_move(run: WalkRun, step: WalkMove) -> bool {
    match step {
        WalkMove::Take(i) => 0 <= i < run.queued.len(),
        WalkMove::Finish(i) => 0 <= i < run.in_hand.len(),
    }
}

pub open spec fn after_move(rules: WalkRules, a: Answers, run: WalkRun, step: WalkMove) -> WalkRun {
    match step {
        WalkMove::Take(i) => WalkRun {
            queued: run.queued.remove(i),
            in_hand: run.in_hand.push(run.queued[i]),
            sent: run.sent,
        },
        WalkMove::Finish(i) => WalkRun {
            queued: run.queued + dir_work(rules, a, run.in_hand[i]),
            in_hand: run.in_hand.remove(i),
            sent: run.sent.add(dir_results(rules, a, run.in_hand[i]).to_multiset()),
        },
    }
}

/// A walk after the first `n` moves.
pub open spec fn run_after(
    rules: WalkRules,
    a: Answers,
    start: Seq<Work>,
    moves: Seq<WalkMove>,
    n: int,
) -> WalkRun
    decreases n,
{
    if n <= 0 {
        WalkRun { queued: start, in_hand: Seq::empty(), sent: Multiset::empty() }
    } else {
        after_move(rules, a, run_after(rules, a, start, moves, n - 1), moves[n - 1])
    }
}

/// Whether the moves are a whole walk: each can happen when its turn comes, and
/// in the end no directory is left.
pub open spec fn is_whole_walk(
    rules: WalkRules,
    a: Answers,
    start: Seq<Work>,
    moves: Seq<WalkMove>,
) -> bool {
    let end = run_after(rules, a, start, moves, moves.len() as int);
    &&& forall|i: int|
        0 <= i < moves.len() ==> can_move(
            run_after(rules, a, start, moves, i),
            #[trigger] moves[i],
        )
    &&& end.queued.len() == 0
    &&& end.in_hand.len() == 0
}

/// The results that a walk hands out, beside those of roots that it cannot start
/// with.
pub open spec fn walk_results(
    rules: WalkRules,
    a: Answers,
    start: Seq<Work>,
    moves: Seq<WalkMove>,
) -> Multiset<Result<Entry, Failure>> {
    run_after(rules, a, start, moves, moves.len() as int).sent
}

proof fn lemma_run(
    rules: WalkRules,
    a: Answers,
    start: Seq<Work>,
    moves: Seq<WalkMove>,
    n: int,
    levels: nat,
)
    requires
        all_end(rules, a, start, levels),
        0 <= n <= moves.len(),
        forall|i: int|
            0 <= i < n ==> can_move(run_after(rules, a, start, moves, i), #[trigger] moves[i]),
    ensures
        ({
            let run = run_after(rules, a, start, moves, n);
            &&& all_end(rules, a, run.queued, levels)
            &&& all_end(rules, a, run.in_hand, levels)
            &&& run.sent.add(subtrees(rules, a, run.queued, levels)).add(
                subtrees(rules, a, run.in_hand, levels),
            ) == subtrees(rules, a, start, levels)
        }),
    decreases n,
{
    let goal = subtrees(rules, a, start, levels);
    let run = run_after(rules, a, start, moves, n);
    if n == 0 {
        assert(run.sent.add(subtrees(rules, a, run.queued, levels)).add(
            subtrees(rules, a, run.in_hand, levels),
        ) =~= goal);
    } else {
        lemma_run(rules, a, start, moves, n - 1, levels);
        let before = run_after(rules, a, start, moves, n - 1);
        assert(can_move(before, moves[n - 1]));
        match moves[n - 1] {
            WalkMove::Take(i) => {
                let w = before.queued[i];
                lemma_subtrees_remove(rules, a, before.queued, i, levels);
                assert(run.in_hand.drop_last() =~= before.in_hand);
                lemma_all_end_removed(rules, a, before.queued, i, levels);
                assert forall|k: int| 0 <= k < run.in_hand.len() implies ends(
                    rules,
                    a,
                    #[trigger] run.in_hand[k],
                    levels,
                ) by {
                    if k < before.in_hand.len() {
                        assert(run.in_hand[k] == before.in_hand[k]);
                    }
                }
            },
            WalkMove::Finish(i) => {
                let w = before.in_hand[i];
                let below = dir_work(rules, a, w);
                assert(ends(rules, a, w, levels));
                lemma_subtrees_remove(rules, a, before.in_hand, i, levels);
                lemma_all_end_removed(rules, a, before.in_hand, i, levels);
                assert(all_end(rules, a, below, (levels - 1) as nat));
                lemma_nothing_more_below(rules, a, below, (levels - 1) as nat);
                lemma_subtrees_joined(rules, a, before.queued, below, levels);
                assert forall|k: int| 0 <= k < run.queued.len() implies ends(
                    rules,
                    a,
                    #[trigger] run.queued[k],
                    levels,
                ) by {
                    if k < before.queued.len() {
                        assert(run.queued[k] == before.queued[k]);
                    } else {
                        assert(run.queued[k] == below[k - before.queued.len()]);
                    }
                }
            },
        }
        assert(run.sent.add(subtrees(rules, a, run.queued, levels)).add(
            subtrees(rules, a, run.in_hand, levels),
        ) =~= goal);
    }
}

proof fn lemma_all_end_removed(
    rules: WalkRules,
    a: Answers,
    ws: Seq<Work>,
    i: int,
    levels: nat,
)
    requires
        all_end(rules, a, ws, levels),
        0 <= i < ws.len(),
    ensures
        all_end(rules, a, ws.remove(i), levels),
{
    let fewer = ws.remove(i);
    assert forall|k: int| 0 <= k < fewer.len() implies ends(
        rules,
        a,
        #[trigger] fewer[k],
        levels,
    ) by {
        if k < i {
            assert(fewer[k] == ws[k]);
        } else {
            assert(fewer[k] == ws[k + 1]);
        }
    }
}

/// If what is left after a move ends, so does what was left before it.
proof fn lemma_move_ends(rules: WalkRules, a: Answers, run: WalkRun, step: WalkMove, levels: nat)
    requires
        can_move(run, step),
        all_end(rules, a, after_move(rules, a, run, step).queued, levels),
        all_end(rules, a, after_move(rules, a, run, step).in_hand, levels),
    ensures
        all_end(rules, a, run.queued, levels + 1),
        all_end(rules, a, run.in_hand, levels + 1),
{
    let next = after_move(rules, a, run, step);
    lemma_nothing_more_below(rules, a, next.queued, levels);
    lemma_nothing_more_below(rules, a, next.in_hand, levels);
    match step {
        WalkMove::Take(i) => {
            assert forall|k: int| 0 <= k < run.queued.len() implies ends(
                rules,
                a,
                #[trigger] run.queued[k],
                levels + 1,
            ) by {
                if k < i {
                    assert(next.queued[k] == run.queued[k]);
                } else if k > i {
                    assert(next.queued[k - 1] == run.queued[k]);
                } else {
                    assert(next.in_hand[run.in_hand.len() as int] == run.queued[k]);
                }
            }
            assert forall|k: int| 0 <= k < run.in_hand.len() implies ends(
                rules,
                a,
                #[trigger] run.in_hand[k],
                levels + 1,
            ) by {
                assert(next.in_hand[k] == run.in_hand[k]);
            }
        },
        WalkMove::Finish(i) => {
            let below = dir_work(rules, a, run.in_hand[i]);
            assert(ends(rules, a, run.in_hand[i], levels + 1)) by {
                assert forall|l: int| 0 <= l < below.len() implies ends(
                    rules,
                    a,
                    #[trigger] below[l],
                    levels,
                ) by {
                    assert(next.queued[run.queued.len() + l] == below[l]);
                }
            }
            assert forall|k: int| 0 <= k < run.queued.len() implies ends(
                rules,
                a,
                #[trigger] run.queued[k],
                levels + 1,
            ) by {
                assert(next.queued[k] == run.queued[k]);
            }
            assert forall|k: int| 0 <= k < run.in_hand.len() implies ends(
                rules,
                a,
                #[trigger] run.in_hand[k],
                levels + 1,
            ) by {
                if k < i {
                    assert(next.in_hand[k] == run.in_hand[k]);
                } else if k > i {
                    assert(next.in_hand[k - 1] == run.in_hand[k]);
                }
            }
        },
    }
}

/// What is left to do when `left` moves remain ends within as many levels.
pub(crate) proof fn lemma_whole_walk_ends(
    rules: WalkRules,
    a: Answers,
    start: Seq<Work>,
    moves: Seq<WalkMove>,
    left: nat,
)
    requires
        is_whole_walk(rules, a, start, moves),
        left <= moves.len(),
    ensures
        ({
            let run = run_after(rules, a, start, moves, moves.len() - left);
            &&& all_end(rules, a, run.queued, left)
            &&& all_end(rules, a, run.in_hand, left)
        }),
    decreases left,
{
    if left > 0 {
        let fewer = (left - 1) as nat;
        let n = moves.len() - left;
        lemma_whole_walk_ends(rules, a, start, moves, fewer);
        let run = run_after(rules, a, start, moves, n);
        assert(can_move(run, moves[n]));
        assert(run_after(rules, a, start, moves, n + 1) == after_move(rules, a, run, moves[n]));
        lemma_move_ends(rules, a, run, moves[n], fewer);
    }
}

/// A whole walk hands out the results of every directory that it comes to, and of
/// each of them once. A directory that fails does not stop it.
pub proof fn law_walk_sends_each_directory_once(
    rules: WalkRules,
    a: Answers,
    start: Seq<Work>,
    levels: nat,
    moves: Seq<WalkMove>,
)
    requires
        all_end(rules, a, start, levels),
        is_whole_walk(rules, a, start, moves),
    ensures
        walk_results(rules, a, start, moves) == subtrees(rules, a, start, levels),
{
    lemma_run(rules, a, start, moves, moves.len() as int, levels);
    assert(walk_results(rules, a, start, moves) =~= subtrees(rules, a, start, levels));
}

/// However many workers there are, and whatever the order in which they take
/// and finish directories, the results that a whole walk hands out are the same:
/// no entry and no error is lost, added or repeated.
pub proof fn law_order_of_work_does_not_matter(
    rules: WalkRules,
    a: Answers,
    start: Seq<Work>,
    moves: Seq<WalkMove>,
    others: Seq<WalkMove>,
)
    requires
        is_whole_walk(rules, a, start, moves),
        is_whole_walk(rules, a, start, others),
    ensures
        walk_results(rules, a, start, moves) == walk_results(rules, a, start, others),
{
    lemma_whole_walk_ends(rules, a, start, moves, moves.len());
    law_walk_sends_each_directory_once(rules, a, start, moves.len(), moves);
    law_walk_sends_each_directory_once(rules, a, start, moves.len(), others);
}

/// Whether two walks differ in nothing but the depth limit.
pub open spec fn differ_in_limit(free: WalkRules, limited: WalkRules) -> bool {
    &&& free.max_depth == 0
    &&& limited.max_depth > 0
    &&& free.follow_symlinks == limited.follow_symlinks
    &&& free.same_filesystem == limited.same_filesystem
}

/// Whether a result belongs to a walk down to the depth `limit`: an entry that
/// is not deeper, or an error of a directory above that depth.
pub open spec fn is_within(result: Result<Entry, Failure>, limit: usize) -> bool {
    match result {
        Ok(entry) => entry.depth <= limit,
        Err(failure) => failure.depth < limit,
    }
}

/// The results down to the depth `limit`.
pub open spec fn down_to(
    results: Multiset<Result<Entry, Failure>>,
    limit: usize,
) -> Multiset<Result<Entry, Failure>> {
    results.filter(|r: Result<Entry, Failure>| is_within(r, limit))
}

/// Reading a directory sends the same entries with and without a limit, and
/// leads to the same directories where the limit allows.
proof fn lemma_same_listing(
    free: WalkRules,
    limited: WalkRules,
    a: Answers,
    w: Work,
    dev: u64,
    raws: Seq<RawEntry>,
)
    requires
        differ_in_limit(free, limited),
    ensures
        sent_for(limited, a, w, dev, raws) == sent_for(free, a, w, dev, raws),
        depth_allowed(limited, depth_below(w.depth)) ==> names_for(limited, a, w, dev, raws)
            == names_for(free, a, w, dev, raws),
    decreases raws.len(),
{
    if raws.len() > 0 {
        lemma_same_listing(free, limited, a, w, dev, raws.drop_last());
    }
}

proof fn lemma_same_directory(free: WalkRules, limited: WalkRules, a: Answers, w: Work)
    requires
        differ_in_limit(free, limited),
    ensures
        dir_results(limited, a, w) == dir_results(free, a, w),
        dir_work(limited, a, w) == (if depth_allowed(limited, depth_below(w.depth)) {
            dir_work(free, a, w)
        } else {
            Seq::empty()
        }),
{
    if let Some(dev) = device_read(free, a, w) {
        lemma_same_listing(free, limited, a, w, dev, (a.listing)(w.path));
    }
}

/// The entries of a directory lie one level below it.
proof fn lemma_entry_depths(
    rules: WalkRules,
    a: Answers,
    w: Work,
    dev: u64,
    raws: Seq<RawEntry>,
    e: Entry,
)
    requires
        sent_for(rules, a, w, dev, raws).contains(e),
    ensures
        e.depth == depth_below(w.depth),
    decreases raws.len(),
{
    let all = sent_for(rules, a, w, dev, raws);
    let before = sent_for(rules, a, w, dev, raws.drop_last());
    if raws.len() > 0 {
        let i = choose|i: int| 0 <= i < all.len() && all[i] == e;
        if i < before.len() {
            assert(before[i] == e);
            lemma_entry_depths(rules, a, w, dev, raws.drop_last(), e);
        }
    }
}

/// Whether a result comes from a directory at `depth` or deeper.
spec fn is_from(result: Result<Entry, Failure>, depth: u16) -> bool {
    match result {
        Ok(entry) => entry.depth > depth,
        Err(failure) => failure.depth >= depth,
    }
}

proof fn lemma_dir_result_depths(
    rules: WalkRules,
    a: Answers,
    w: Work,
    r: Result<Entry, Failure>,
)
    requires
        dir_results(rules, a, w).to_multiset().count(r) > 0,
    ensures
        match r {
            Ok(entry) => entry.depth == depth_below(w.depth),
            Err(failure) => failure.depth == w.depth,
        },
{
    let results = dir_results(rules, a, w);
    let entries = dir_entries(rules, a, w);
    vstd::seq_lib::to_multiset_contains(results, r);
    let i = choose|i: int| 0 <= i < results.len() && results[i] == r;
    if i < entries.len() {
        assert(r == Ok::<Entry, Failure>(entries[i]));
        assert(entries.contains(entries[i]));
        if let Some(dev) = device_read(rules, a, w) {
            lemma_entry_depths(rules, a, w, dev, (a.listing)(w.path), entries[i]);
        }
    } else {
        assert(r == Err::<Entry, Failure>(dir_failures(rules, a, w)[i - entries.len()]));
    }
}

/// What lies below a directory is deeper than it.
proof fn lemma_subtree_depths(
    rules: WalkRules,
    a: Answers,
    w: Work,
    levels: nat,
    r: Result<Entry, Failure>,
)
    requires
        w.depth + levels <= u16::MAX,
        subtree(rules, a, w, levels).count(r) > 0,
    ensures
        is_from(r, w.depth),
    decreases levels, 0nat,
{
    if dir_results(rules, a, w).to_multiset().count(r) > 0 {
        lemma_dir_result_depths(rules, a, w, r);
    } else {
        let below = dir_work(rules, a, w);
        lemma_subtrees_depths(rules, a, below, depth_below(w.depth), (levels - 1) as nat, r);
    }
}

proof fn lemma_subtrees_depths(
    rules: WalkRules,
    a: Answers,
    ws: Seq<Work>,
    depth: u16,
    levels: nat,
    r: Result<Entry, Failure>,
)
    requires
        forall|i: int| 0 <= i < ws.len() ==> (#[trigger] ws[i]).depth == depth,
        depth + levels <= u16::MAX,
        subtrees(rules, a, ws, levels).count(r) > 0,
    ensures
        is_from(r, depth),
    decreases levels, ws.len() + 1,
{
    if ws.len() > 0 {
        assert(ws[ws.len() - 1].depth == depth);
        if subtree(rules, a, ws.last(), levels).count(r) > 0 {
            lemma_subtree_depths(rules, a, ws.last(), levels, r);
        } else {
            lemma_subtrees_depths(rules, a, ws.drop_last(), depth, levels, r);
        }
    }
}

/// A limit cuts what lies below a directory off at that depth.
proof fn lemma_limit(
    free: WalkRules,
    limited: WalkRules,
    a: Answers,
    w: Work,
    levels: nat,
)
    requires
        differ_in_limit(free, limited),
        w.depth < limited.max_depth,
        w.depth + levels <= u16::MAX,
    ensures
        subtree(limited, a, w, levels) == down_to(
            subtree(free, a, w, levels),
            limited.max_depth,
        ),
        ends(free, a, w, levels) ==> ends(limited, a, w, levels),
    decreases levels, 0nat,
{
    let limit = limited.max_depth;
    let own = dir_results(free, a, w).to_multiset();
    let below = dir_work(free, a, w);
    if levels == 0 {
        assert(subtree(limited, a, w, levels) =~= down_to(subtree(free, a, w, levels), limit));
    } else {
        let fewer = (levels - 1) as nat;
        let rest = subtrees(free, a, below, fewer);
        lemma_same_directory(free, limited, a, w);
        assert forall|r: Result<Entry, Failure>| own.count(r) > 0 implies #[trigger] down_to(
            own,
            limit,
        ).count(r) == own.count(r) by {
            lemma_dir_result_depths(free, a, w, r);
        }
        assert(down_to(own, limit) =~= own);
        if depth_allowed(limited, depth_below(w.depth)) {
            lemma_limit_below(free, limited, a, below, fewer);
            assert(ends(free, a, w, levels) ==> all_end(free, a, below, fewer));
        } else {
            assert forall|r: Result<Entry, Failure>| #[trigger]
                rest.count(r) > 0 implies !is_within(r, limit) by {
                lemma_subtrees_depths(free, a, below, depth_below(w.depth), fewer, r);
            }
            assert(down_to(rest, limit) =~= Multiset::empty());
        }
        assert(subtree(limited, a, w, levels) =~= down_to(subtree(free, a, w, levels), limit));
    }
}

proof fn lemma_limit_below(
    free: WalkRules,
    limited: WalkRules,
    a: Answers,
    ws: Seq<Work>,
    levels: nat,
)
    requires
        differ_in_limit(free, limited),
        forall|i: int|
            0 <= i < ws.len() ==> (#[trigger] ws[i]).depth < limited.max_depth && ws[i].depth
                + levels <= u16::MAX,
    ensures
        subtrees(limited, a, ws, levels) == down_to(
            subtrees(free, a, ws, levels),
            limited.max_depth,
        ),
        all_end(free, a, ws, levels) ==> all_end(limited, a, ws, levels),
    decreases levels, ws.len() + 1,
{
    let limit = limited.max_depth;
    if ws.len() > 0 {
        let fewer = ws.drop_last();
        assert(ws[ws.len() - 1].depth < limit);
        lemma_limit_below(free, limited, a, fewer, levels);
        lemma_limit(free, limited, a, ws.last(), levels);
        if all_end(free, a, ws, levels) {
            assert(all_end(free, a, fewer, levels)) by {
                assert forall|i: int| 0 <= i < fewer.len() implies ends(
                    free,
                    a,
                    #[trigger] fewer[i],
                    levels,
                ) by {
                    assert(fewer[i] == ws[i]);
                }
            }
            assert(ends(free, a, ws[ws.len() - 1], levels));
            assert forall|i: int| 0 <= i < ws.len() implies ends(
                limited,
                a,
                #[trigger] ws[i],
                levels,
            ) by {
                if i < fewer.len() {
                    assert(fewer[i] == ws[i]);
                }
            }
        }
    }
    assert(subtrees(limited, a, ws, levels) =~= down_to(subtrees(free, a, ws, levels), limit));
}

proof fn lemma_seeds_at_the_top(a: Answers, roots: Seq<Seq<u8>>)
    ensures
        forall|i: int| 0 <= i < seeds(a, roots).len() ==> (#[trigger] seeds(a, roots)[i]).depth == 0,
    decreases roots.len(),
{
    if roots.len() > 0 {
        let before = seeds(a, roots.drop_last());
        lemma_seeds_at_the_top(a, roots.drop_last());
        assert forall|i: int| 0 <= i < seeds(a, roots).len() implies (#[trigger] seeds(
            a,
            roots,
        )[i]).depth == 0 by {
            if i < before.len() {
                assert(seeds(a, roots)[i] == before[i]);
            }
        }
    }
}

proof fn lemma_seed_failure_depths(a: Answers, roots: Seq<Seq<u8>>, f: Failure)
    requires
        seed_failures(a, roots).contains(f),
    ensures
        f.depth == 0,
    decreases roots.len(),
{
    if roots.len() > 0 {
        let all = seed_failures(a, roots);
        let before = seed_failures(a, roots.drop_last());
        let i = choose|i: int| 0 <= i < all.len() && all[i] == f;
        if i < before.len() {
            assert(before[i] == f);
            lemma_seed_failure_depths(a, roots.drop_last(), f);
        }
    }
}

/// All results of a walk below some roots: the errors of those that it cannot
/// start with, and what the walk hands out.
pub open spec fn all_results(
    rules: WalkRules,
    a: Answers,
    roots: Seq<Seq<u8>>,
    moves: Seq<WalkMove>,
) -> Multiset<Result<Entry, Failure>> {
    seed_failures(a, roots).map_values(|f: Failure| Err::<Entry, Failure>(f)).to_multiset().add(
        walk_results(rules, a, seeds(a, roots), moves),
    )
}

/// A depth limit leaves out what is deeper, and nothing else: a walk with a
/// limit hands out exactly those entries of the walk without one that lie at
/// most that deep, and the errors of the directories above that depth, whatever
/// the order in which either reads its directories. The depths have to fit into
/// the number that counts them.
pub proof fn law_limit_keeps_what_is_not_deeper(
    free: WalkRules,
    limited: WalkRules,
    a: Answers,
    roots: Seq<Seq<u8>>,
    levels: nat,
    moves: Seq<WalkMove>,
    limited_moves: Seq<WalkMove>,
)
    requires
        differ_in_limit(free, limited),
        levels <= u16::MAX,
        all_end(free, a, seeds(a, roots), levels),
        is_whole_walk(free, a, seeds(a, roots), moves),
        is_whole_walk(limited, a, seeds(a, roots), limited_moves),
    ensures
        all_results(limited, a, roots, limited_moves) == down_to(
            all_results(free, a, roots, moves),
            limited.max_depth,
        ),
{
    let limit = limited.max_depth;
    let start = seeds(a, roots);
    let failed = seed_failures(a, roots).map_values(|f: Failure| Err::<Entry, Failure>(f));
    lemma_seeds_at_the_top(a, roots);
    lemma_limit_below(free, limited, a, start, levels);
    law_walk_sends_each_directory_once(free, a, start, levels, moves);
    law_walk_sends_each_directory_once(limited, a, start, levels, limited_moves);
    assert forall|r: Result<Entry, Failure>| #[trigger]
        failed.to_multiset().count(r) > 0 implies is_within(r, limit) by {
        vstd::seq_lib::to_multiset_contains(failed, r);
        let i = choose|i: int| 0 <= i < failed.len() && failed[i] == r;
        let f = seed_failures(a, roots)[i];
        assert(seed_failures(a, roots).contains(f));
        lemma_seed_failure_depths(a, roots, f);
    }
    assert(all_results(limited, a, roots, limited_moves) =~= down_to(
        all_results(free, a, roots, moves),
        limit,
    ));
}

/// The errors of the first `levels` levels of directories from `w` on.
pub open spec fn failed_subtree(
    rules: WalkRules,
    a: Answers,
    w: Work,
    levels: nat,
) -> Multiset<Failure>
    decreases levels, 0nat,
{
    if levels == 0 {
        Multiset::empty()
    } else {
        dir_failures(rules, a, w).to_multiset().add(
            failed_subtrees(rules, a, dir_work(rules, a, w), (levels - 1) as nat),
        )
    }
}

/// The errors of the first `levels` levels from each of the directories on.
pub open spec fn failed_subtrees(
    rules: WalkRules,
    a: Answers,
    ws: Seq<Work>,
    levels: nat,
) -> Multiset<Failure>
    decreases levels, ws.len(),
{
    if ws.len() == 0 {
        Multiset::empty()
    } else {
        failed_subtrees(rules, a, ws.drop_last(), levels).add(
            failed_subtree(rules, a, ws.last(), levels),
        )
    }
}

proof fn lemma_wrapped_failures(failures: Seq<Failure>, f: Failure)
    ensures
        failures.map_values(|f: Failure| Err::<Entry, Failure>(f)).to_multiset().count(
            Err::<Entry, Failure>(f),
        ) == failures.to_multiset().count(f),
    decreases failures.len(),
{
    let wrap = |f: Failure| Err::<Entry, Failure>(f);
    if failures.len() == 0 {
        assert(failures.map_values(wrap) =~= Seq::empty());
        vstd::seq_lib::to_multiset_len(failures);
        vstd::seq_lib::to_multiset_len(failures.map_values(wrap));
    } else {
        let fewer = failures.drop_last();
        let last = failures.last();
        lemma_wrapped_failures(fewer, f);
        assert(failures =~= fewer.push(last));
        assert(failures.map_values(wrap) =~= fewer.map_values(wrap).push(wrap(last)));
        vstd::seq_lib::to_multiset_build(fewer, last);
        vstd::seq_lib::to_multiset_build(fewer.map_values(wrap), wrap(last));
    }
}

proof fn lemma_dir_failures(rules: WalkRules, a: Answers, w: Work, f: Failure)
    ensures
        dir_results(rules, a, w).to_multiset().count(Err::<Entry, Failure>(f)) == dir_failures(
            rules,
            a,
            w,
        ).to_multiset().count(f),
{
    let entries = dir_entries(rules, a, w).map_values(|e: Entry| Ok::<Entry, Failure>(e));
    let failures = dir_failures(rules, a, w).map_values(|f: Failure| Err::<Entry, Failure>(f));
    vstd::seq_lib::lemma_multiset_commutative(entries, failures);
    vstd::seq_lib::to_multiset_contains(entries, Err::<Entry, Failure>(f));
    lemma_wrapped_failures(dir_failures(rules, a, w), f);
}

proof fn lemma_failed_subtree(rules: WalkRules, a: Answers, w: Work, levels: nat, f: Failure)
    ensures
        subtree(rules, a, w, levels).count(Err::<Entry, Failure>(f)) == failed_subtree(
            rules,
            a,
            w,
            levels,
        ).count(f),
    decreases levels, 0nat,
{
    if levels > 0 {
        lemma_dir_failures(rules, a, w, f);
        lemma_failed_subtrees(rules, a, dir_work(rules, a, w), (levels - 1) as nat, f);
    }
}

proof fn lemma_failed_subtrees(
    rules: WalkRules,
    a: Answers,
    ws: Seq<Work>,
    levels: nat,
    f: Failure,
)
    ensures
        subtrees(rules, a, ws, levels).count(Err::<Entry, Failure>(f)) == failed_subtrees(
            rules,
            a,
            ws,
            levels,
        ).count(f),
    decreases levels, ws.len() + 1,
{
    if ws.len() > 0 {
        lemma_failed_subtrees(rules, a, ws.drop_last(), levels, f);
        lemma_failed_subtree(rules, a, ws.last(), levels, f);
    }
}

/// Every directory that cannot be opened, examined or read to its end gives one
/// error, and so does every root that the walk cannot start with; there are no
/// other errors. The walk goes on past them: what it hands out beside them is
/// that of all other directories.
pub proof fn law_each_failure_is_reported_once(
    rules: WalkRules,
    a: Answers,
    roots: Seq<Seq<u8>>,
    levels: nat,
    moves: Seq<WalkMove>,
    f: Failure,
)
    requires
        all_end(rules, a, seeds(a, roots), levels),
        is_whole_walk(rules, a, seeds(a, roots), moves),
    ensures
        all_results(rules, a, roots, moves).count(Err::<Entry, Failure>(f)) == seed_failures(
            a,
            roots,
        ).to_multiset().count(f) + failed_subtrees(rules, a, seeds(a, roots), levels).count(f),
{
    law_walk_sends_each_directory_once(rules, a, seeds(a, roots), levels, moves);
    lemma_failed_subtrees(rules, a, seeds(a, roots), levels, f);
    lemma_wrapped_failures(seed_failures(a, roots), f);
}

} // verus!
