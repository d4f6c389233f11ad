//! What a walk reaches: which entries it hands out, which directories it reads
//! and which errors it reports, in terms of what the file system answers.
use crate::paths::child_path;
use crate::sys::{EntryMetadata, FileType, RawEntry, SysError};
use crate::walk::entry::Entry;
use crate::walk::error::{failure_kind, Failure, FailureKind};
use crate::walk::whole::{
    all_end, dir_entries, dir_failures, dir_results, dir_work, ends, is_whole_walk,
    law_walk_sends_each_directory_once, lemma_whole_walk_ends, names_for, seed_failures, seeds,
    sent_for, subtree, subtrees, walk_results, Answers, WalkMove,
};
use crate::walk::worker::{WalkRules, Work};
use vstd::multiset::Multiset;
use vstd::prelude::*;

verus! {

/// Whether the file system lets a directory be read, and the walk wants it to
/// be: it can be opened and examined and, where the walk stays on one file
/// system, lies on the device of its root.
pub open spec fn can_be_read(rules: WalkRules, a: Answers, w: Work) -> bool {
    &&& !w.path.contains(0u8)
    &&& (a.probe)(w.path) is Ok
    &&& rules.same_filesystem ==> (a.probe)(w.path)->Ok_0.dev == w.root_dev
}

/// Whether an entry of a listing cannot be used: its type is not known, and its
/// name cannot be handed to the system to ask for it.
pub open spec fn is_unusable(raw: RawEntry) -> bool {
    raw.file_type == FileType::Unknown && raw.name.contains(0u8)
}

/// Whether an entry of a listing is read as a directory: it is listed as one, or
/// turns out to be one where the listing does not say, or is a link to one and
/// links are followed.
pub open spec fn is_entered(rules: WalkRules, a: Answers, w: Work, raw: RawEntry) -> bool {
    match raw.file_type {
        FileType::Directory => true,
        FileType::Unknown => !raw.name.contains(0u8) && ((a.stat)(w.path, raw.name) matches Some(
            meta,
        ) && meta.file_type == FileType::Directory),
        FileType::Symlink => rules.follow_symlinks && (a.leads_to_dir)(
            child_path(w.path, raw.name),
        ),
        _ => false,
    }
}

/// How many of the first `n` entries of a listing have a property.
pub open spec fn listed_with(
    raws: Seq<RawEntry>,
    property: spec_fn(RawEntry) -> bool,
    n: int,
) -> nat
    decreases n,
{
    if n <= 0 {
        0
    } else {
        listed_with(raws, property, n - 1) + if property(raws[n - 1]) {
            1nat
        } else {
            0
        }
    }
}

/// Whether `depth` is one more than that of a directory, as far as depths can be
/// counted.
pub open spec fn is_one_deeper(depth: u16, than: u16) -> bool {
    depth == than + 1 || (than == u16::MAX && depth == u16::MAX)
}

/// Whether the limit lets the directories below one at `depth` be read.
pub open spec fn limit_allows(rules: WalkRules, depth: u16) -> bool {
    rules.max_depth == 0 || depth + 1 < rules.max_depth || (depth == u16::MAX && depth
        < rules.max_depth)
}

/// Whether an entry tells the sizes and links that metadata gives.
pub open spec fn tells_sizes(e: Entry, meta: EntryMetadata) -> bool {
    &&& e.apparent_size == Some(meta.size)
    &&& e.disk_usage == Some(meta.alloc_size)
    &&& e.nlink == Some(meta.nlink)
}

/// Whether an entry tells the sizes and links that the listing gives. Where it
/// does not give the allocated size, the other one stands in.
pub open spec fn tells_listed_sizes(e: Entry, raw: RawEntry) -> bool {
    &&& e.apparent_size == raw.size
    &&& e.disk_usage == (if raw.alloc_size is Some {
        raw.alloc_size
    } else {
        raw.size
    })
    &&& e.nlink == raw.nlink
}

/// Whether an entry is the one of a directory that a listing has as `raw`: it
/// lies in that directory, one level deeper; its type, inode number and device
/// are those of the listing, and those that its metadata gives where the listing
/// leaves the type open; its sizes are those of the listing, and those that its
/// metadata gives where the listing leaves them open and they matter.
pub open spec fn is_entry_for(a: Answers, w: Work, raw: RawEntry, e: Entry) -> bool {
    let here = (a.probe)(w.path)->Ok_0.dev;
    let asked = (a.stat)(w.path, raw.name);
    &&& e.path == child_path(w.path, raw.name)
    &&& is_one_deeper(e.depth, w.depth)
    &&& raw.file_type != FileType::Unknown ==> {
        &&& e.file_type == raw.file_type
        &&& e.ino == raw.ino
        &&& e.dev == (if raw.dev is Some {
            raw.dev->Some_0
        } else {
            here
        })
    }
    &&& raw.file_type == FileType::Unknown && asked is Some ==> {
        &&& e.file_type == asked->Some_0.file_type
        &&& e.ino == asked->Some_0.ino
        &&& e.dev == asked->Some_0.dev
        &&& tells_sizes(e, asked->Some_0)
    }
    &&& raw.file_type == FileType::Unknown && asked is None ==> {
        &&& e.file_type == FileType::Unknown
        &&& e.ino == raw.ino
        &&& e.dev == here
        &&& e.apparent_size is None
        &&& e.disk_usage is None
        &&& e.nlink is None
    }
    &&& raw.file_type == FileType::Directory || raw.file_type == FileType::Symlink
        ==> tells_listed_sizes(e, raw)
    &&& raw.file_type == FileType::File || raw.file_type == FileType::Other ==> (if raw.size is None
        && asked is Some && !raw.name.contains(0u8) {
        tells_sizes(e, asked->Some_0)
    } else {
        tells_listed_sizes(e, raw)
    })
}

proof fn lemma_sent_for(rules: WalkRules, a: Answers, w: Work, raws: Seq<RawEntry>, n: int, i: int)
    requires
        (a.probe)(w.path) is Ok,
        0 <= n <= raws.len(),
    ensures
        ({
            let usable = |raw: RawEntry| !is_unusable(raw);
            let sent = sent_for(rules, a, w, (a.probe)(w.path)->Ok_0.dev, raws.take(n));
            let at = listed_with(raws, usable, i) as int;
            &&& sent.len() == listed_with(raws, usable, n)
            &&& 0 <= i < n && !is_unusable(raws[i]) ==> at < sent.len() && is_entry_for(
                a,
                w,
                raws[i],
                sent[at],
            )
        }),
    decreases n,
{
    if n > 0 {
        lemma_sent_for(rules, a, w, raws, n - 1, i);
        assert(raws.take(n).drop_last() =~= raws.take(n - 1));
        assert(raws.take(n).last() == raws[n - 1]);
    }
}

/// Reading a directory hands out one entry for every entry of its listing, in
/// order, whatever it is called and whatever it is; only an entry of unknown
/// type that cannot be asked for is left out.
pub proof fn law_every_listed_entry_is_sent(rules: WalkRules, a: Answers, w: Work)
    requires
        can_be_read(rules, a, w),
    ensures
        ({
            let raws = (a.listing)(w.path);
            let usable = |raw: RawEntry| !is_unusable(raw);
            &&& dir_entries(rules, a, w).len() == listed_with(raws, usable, raws.len() as int)
            &&& forall|i: int|
                0 <= i < raws.len() && !is_unusable(#[trigger] raws[i]) ==> {
                    let at = listed_with(raws, usable, i) as int;
                    at < dir_entries(rules, a, w).len() && is_entry_for(
                        a,
                        w,
                        raws[i],
                        dir_entries(rules, a, w)[at],
                    )
                }
        }),
{
    let raws = (a.listing)(w.path);
    let usable = |raw: RawEntry| !is_unusable(raw);
    let n = raws.len() as int;
    assert(raws.take(n) =~= raws);
    lemma_sent_for(rules, a, w, raws, n, 0);
    assert forall|i: int| 0 <= i < raws.len() && !is_unusable(#[trigger] raws[i]) implies {
        let at = listed_with(raws, usable, i) as int;
        at < dir_entries(rules, a, w).len() && is_entry_for(
            a,
            w,
            raws[i],
            dir_entries(rules, a, w)[at],
        )
    } by {
        lemma_sent_for(rules, a, w, raws, n, i);
    }
}

proof fn lemma_names_for(rules: WalkRules, a: Answers, w: Work, raws: Seq<RawEntry>, n: int, i: int)
    requires
        (a.probe)(w.path) is Ok,
        limit_allows(rules, w.depth),
        0 <= n <= raws.len(),
    ensures
        ({
            let entered = |raw: RawEntry| is_entered(rules, a, w, raw);
            let names = names_for(rules, a, w, (a.probe)(w.path)->Ok_0.dev, raws.take(n));
            let at = listed_with(raws, entered, i) as int;
            &&& names.len() == listed_with(raws, entered, n)
            &&& 0 <= i < n && is_entered(rules, a, w, raws[i]) ==> at < names.len() && names[at]
                == raws[i].name
        }),
    decreases n,
{
    if n > 0 {
        lemma_names_for(rules, a, w, raws, n - 1, i);
        assert(raws.take(n).drop_last() =~= raws.take(n - 1));
        assert(raws.take(n).last() == raws[n - 1]);
    }
}

/// Reading a directory leads to every directory in its listing, whatever it is
/// called: each entry that is listed as a directory, turns out to be one or, with
/// links followed, leads to one is read in turn, in order and under its own path,
/// one level deeper and on behalf of the same root. Where the depth limit does
/// not allow it, none is.
pub proof fn law_every_listed_directory_is_entered(rules: WalkRules, a: Answers, w: Work)
    requires
        can_be_read(rules, a, w),
    ensures
        ({
            let raws = (a.listing)(w.path);
            let entered = |raw: RawEntry| is_entered(rules, a, w, raw);
            let work = dir_work(rules, a, w);
            &&& !limit_allows(rules, w.depth) ==> work.len() == 0
            &&& limit_allows(rules, w.depth) ==> work.len() == listed_with(
                raws,
                entered,
                raws.len() as int,
            )
            &&& limit_allows(rules, w.depth) ==> forall|i: int|
                0 <= i < raws.len() && is_entered(rules, a, w, #[trigger] raws[i]) ==> {
                    let at = listed_with(raws, entered, i) as int;
                    &&& at < work.len()
                    &&& work[at].path == child_path(w.path, raws[i].name)
                    &&& is_one_deeper(work[at].depth, w.depth)
                    &&& work[at].root_dev == w.root_dev
                }
        }),
{
    let raws = (a.listing)(w.path);
    let entered = |raw: RawEntry| is_entered(rules, a, w, raw);
    let work = dir_work(rules, a, w);
    let n = raws.len() as int;
    assert(raws.take(n) =~= raws);
    if limit_allows(rules, w.depth) {
        lemma_names_for(rules, a, w, raws, n, 0);
        assert forall|i: int|
            0 <= i < raws.len() && is_entered(rules, a, w, #[trigger] raws[i]) implies {
            let at = listed_with(raws, entered, i) as int;
            &&& at < work.len()
            &&& work[at].path == child_path(w.path, raws[i].name)
            &&& is_one_deeper(work[at].depth, w.depth)
            &&& work[at].root_dev == w.root_dev
        } by {
            lemma_names_for(rules, a, w, raws, n, i);
        }
    }
}

/// A directory that cannot be opened or examined, or that lies on another file
/// system than the walk stays on, gives no entries and leads nowhere.
pub proof fn law_other_directories_are_left_alone(rules: WalkRules, a: Answers, w: Work)
    requires
        !can_be_read(rules, a, w),
    ensures
        dir_entries(rules, a, w).len() == 0,
        dir_work(rules, a, w).len() == 0,
{
}

/// A directory gives one error if its path cannot be handed to the system, if it
/// cannot be opened or examined, or if reading it fails, with its path, its depth
/// and the kind of the error; a directory on another file system gives none.
pub proof fn law_directory_errors(rules: WalkRules, a: Answers, w: Work)
    ensures
        ({
            let errors = dir_failures(rules, a, w);
            let probe = (a.probe)(w.path);
            let read = (a.read_error)(w.path);
            &&& errors.len() == (if w.path.contains(0u8) || probe is Err || (can_be_read(rules, a, w)
                && read is Some) {
                1nat
            } else {
                0
            })
            &&& errors.len() == 1 ==> errors[0].path == Some(w.path) && errors[0].depth == w.depth
            &&& w.path.contains(0u8) ==> errors[0].kind is Io
            &&& !w.path.contains(0u8) && probe is Err ==> errors[0].kind == failure_kind(
                probe->Err_0,
            )
            &&& can_be_read(rules, a, w) && read is Some ==> errors[0].kind == failure_kind(
                read->Some_0,
            )
        }),
{
}

/// An error of the system is told by its number: refused access (13 and 1) and
/// exhausted descriptors (24 and 23) are kinds of their own; any other keeps its
/// number and its text.
pub proof fn law_error_kinds(e: SysError)
    ensures
        e matches SysError::Io(io) ==> {
            &&& io.code == Some(13i32) || io.code == Some(1i32) ==> failure_kind(e)
                == FailureKind::PermissionDenied
            &&& io.code == Some(24i32) || io.code == Some(23i32) ==> failure_kind(e)
                == FailureKind::TooManyOpenFiles
            &&& io.code != Some(13i32) && io.code != Some(1i32) && io.code != Some(24i32) && io.code
                != Some(23i32) ==> failure_kind(e) == (FailureKind::Io {
                code: io.code,
                text: io.text@,
            })
        },
        !(e is Io) ==> failure_kind(e) is Io && failure_kind(e)->Io_code is None,
{
}

/// Whether a walk can start with a root.
pub open spec fn can_start(a: Answers, root: Seq<u8>) -> bool {
    !root.contains(0u8) && (a.probe)(root) is Ok
}

/// How many of the first `n` roots a walk can start with.
pub open spec fn startable(a: Answers, roots: Seq<Seq<u8>>, n: int) -> nat
    decreases n,
{
    if n <= 0 {
        0
    } else {
        startable(a, roots, n - 1) + if can_start(a, roots[n - 1]) {
            1nat
        } else {
            0
        }
    }
}

/// A walk starts with every root that can be opened and examined, at depth zero
/// and with the device that the root lies on, and reports one error, with the
/// path of the root, for every other.
pub proof fn law_walk_starts_with_every_root(a: Answers, roots: Seq<Seq<u8>>, i: int)
    requires
        0 <= i < roots.len(),
    ensures
        seeds(a, roots).len() == startable(a, roots, roots.len() as int),
        seeds(a, roots).len() + seed_failures(a, roots).len() == roots.len(),
        can_start(a, roots[i]) ==> {
            let at = startable(a, roots, i) as int;
            &&& at < seeds(a, roots).len()
            &&& seeds(a, roots)[at].path == roots[i]
            &&& seeds(a, roots)[at].depth == 0
            &&& seeds(a, roots)[at].root_dev == (a.probe)(roots[i])->Ok_0.dev
        },
        !can_start(a, roots[i]) ==> {
            let at = i - startable(a, roots, i);
            &&& 0 <= at < seed_failures(a, roots).len()
            &&& seed_failures(a, roots)[at].path == Some(roots[i])
            &&& seed_failures(a, roots)[at].depth == 0
            &&& !roots[i].contains(0u8) ==> seed_failures(a, roots)[at].kind == failure_kind(
                (a.probe)(roots[i])->Err_0,
            )
        },
{
    let n = roots.len() as int;
    assert(roots.take(n) =~= roots);
    lemma_seeds(a, roots, n, i);
}

proof fn lemma_seeds(a: Answers, roots: Seq<Seq<u8>>, n: int, i: int)
    requires
        0 <= n <= roots.len(),
    ensures
        ({
            let start = seeds(a, roots.take(n));
            let failed = seed_failures(a, roots.take(n));
            let at = startable(a, roots, i) as int;
            &&& start.len() == startable(a, roots, n)
            &&& start.len() + failed.len() == n
            &&& 0 <= i < n && can_start(a, roots[i]) ==> {
                &&& at < start.len()
                &&& start[at].path == roots[i]
                &&& start[at].depth == 0
                &&& start[at].root_dev == (a.probe)(roots[i])->Ok_0.dev
            }
            &&& 0 <= i < n && !can_start(a, roots[i]) ==> {
                &&& 0 <= i - at < failed.len()
                &&& failed[i - at].path == Some(roots[i])
                &&& failed[i - at].depth == 0
                &&& !roots[i].contains(0u8) ==> failed[i - at].kind == failure_kind(
                    (a.probe)(roots[i])->Err_0,
                )
            }
        }),
    decreases n,
{
    if n > 0 {
        lemma_seeds(a, roots, n - 1, i);
        assert(roots.take(n).drop_last() =~= roots.take(n - 1));
        assert(roots.take(n).last() == roots[n - 1]);
    }
}

/// Whether a walk has sent an entry for `raw`, an entry of the listing of the
/// directory that `w` stands for.
pub open spec fn is_sent(
    results: Multiset<Result<Entry, Failure>>,
    a: Answers,
    w: Work,
    raw: RawEntry,
) -> bool {
    exists|e: Entry| #[trigger]
        results.count(Ok::<Entry, Failure>(e)) > 0 && is_entry_for(a, w, raw, e)
}

proof fn lemma_listed_before(raws: Seq<RawEntry>, property: spec_fn(RawEntry) -> bool, p: int, n: int)
    requires
        0 <= p < listed_with(raws, property, n),
        n <= raws.len(),
    ensures
        exists|i: int|
            0 <= i < n && property(#[trigger] raws[i]) && listed_with(raws, property, i) == p,
    decreases n,
{
    if p < listed_with(raws, property, n - 1) {
        lemma_listed_before(raws, property, p, n - 1);
        let i = choose|i: int|
            0 <= i < n - 1 && property(#[trigger] raws[i]) && listed_with(raws, property, i) == p;
        assert(property(raws[i]));
    } else {
        assert(property(raws[n - 1]) && listed_with(raws, property, n - 1) == p);
    }
}

/// Every entry that reading a directory hands out is one of its listing.
proof fn lemma_sent_is_listed(rules: WalkRules, a: Answers, w: Work, e: Entry) -> (i: int)
    requires
        dir_results(rules, a, w).to_multiset().count(Ok::<Entry, Failure>(e)) > 0,
    ensures
        can_be_read(rules, a, w),
        0 <= i < (a.listing)(w.path).len(),
        !is_unusable((a.listing)(w.path)[i]),
        is_entry_for(a, w, (a.listing)(w.path)[i], e),
{
    let results = dir_results(rules, a, w);
    let entries = dir_entries(rules, a, w);
    let r = Ok::<Entry, Failure>(e);
    vstd::seq_lib::to_multiset_contains(results, r);
    let p = choose|p: int| 0 <= p < results.len() && results[p] == r;
    if p >= entries.len() {
        assert(results[p] == Err::<Entry, Failure>(
            dir_failures(rules, a, w)[p - entries.len()],
        ));
    }
    assert(results[p] == Ok::<Entry, Failure>(entries[p]));
    if !can_be_read(rules, a, w) {
        law_other_directories_are_left_alone(rules, a, w);
    }
    law_every_listed_entry_is_sent(rules, a, w);
    let raws = (a.listing)(w.path);
    let usable = |raw: RawEntry| !is_unusable(raw);
    lemma_listed_before(raws, usable, p, raws.len() as int);
    let i = choose|i: int|
        0 <= i < raws.len() && usable(#[trigger] raws[i]) && listed_with(raws, usable, i) == p;
    assert(usable(raws[i]));
    i
}

/// What reading a directory hands out for an entry of its listing is among the
/// results of the walk from there on.
proof fn lemma_listing_in_subtree(rules: WalkRules, a: Answers, w: Work, levels: nat, i: int)
    requires
        levels > 0,
        can_be_read(rules, a, w),
        0 <= i < (a.listing)(w.path).len(),
        !is_unusable((a.listing)(w.path)[i]),
    ensures
        is_sent(subtree(rules, a, w, levels), a, w, (a.listing)(w.path)[i]),
{
    law_every_listed_entry_is_sent(rules, a, w);
    let raws = (a.listing)(w.path);
    let usable = |raw: RawEntry| !is_unusable(raw);
    let at = listed_with(raws, usable, i) as int;
    let entries = dir_entries(rules, a, w);
    assert(is_entry_for(a, w, raws[i], entries[at]));
    let r = Ok::<Entry, Failure>(entries[at]);
    let results = dir_results(rules, a, w);
    assert(results[at] == r);
    assert(results.contains(r));
    vstd::seq_lib::to_multiset_contains(results, r);
    assert(subtree(rules, a, w, levels).count(r) > 0);
}

/// The results from one of the directories on are among those from all of them.
proof fn lemma_among_subtrees(
    rules: WalkRules,
    a: Answers,
    ws: Seq<Work>,
    levels: nat,
    i: int,
    r: Result<Entry, Failure>,
)
    requires
        0 <= i < ws.len(),
    ensures
        subtree(rules, a, ws[i], levels).count(r) <= subtrees(rules, a, ws, levels).count(r),
    decreases ws.len(),
{
    if i < ws.len() - 1 {
        lemma_among_subtrees(rules, a, ws.drop_last(), levels, i, r);
    }
}

proof fn lemma_sent_among(
    rules: WalkRules,
    a: Answers,
    ws: Seq<Work>,
    levels: nat,
    i: int,
    w: Work,
    raw: RawEntry,
)
    requires
        0 <= i < ws.len(),
        is_sent(subtree(rules, a, ws[i], levels), a, w, raw),
    ensures
        is_sent(subtrees(rules, a, ws, levels), a, w, raw),
{
    let e = choose|e: Entry| #[trigger]
        subtree(rules, a, ws[i], levels).count(Ok::<Entry, Failure>(e)) > 0 && is_entry_for(
            a,
            w,
            raw,
            e,
        );
    lemma_among_subtrees(rules, a, ws, levels, i, Ok::<Entry, Failure>(e));
    assert(subtrees(rules, a, ws, levels).count(Ok::<Entry, Failure>(e)) > 0);
}

/// The directory that a walk reads for an entry that it has sent.
pub open spec fn work_for(e: Entry, root_dev: u64) -> Work {
    Work { path: e.path, depth: e.depth, root_dev }
}

/// A directory that is sent from `w` on is read there too.
proof fn lemma_sent_directory_is_read(
    rules: WalkRules,
    a: Answers,
    w: Work,
    root_dev: u64,
    levels: nat,
    e: Entry,
    i: int,
)
    requires
        ends(rules, a, w, levels),
        rules.same_filesystem ==> w.root_dev == root_dev,
        subtree(rules, a, w, levels).count(Ok::<Entry, Failure>(e)) > 0,
        e.file_type == FileType::Directory,
        rules.max_depth == 0 || e.depth < rules.max_depth,
        can_be_read(rules, a, work_for(e, root_dev)),
        0 <= i < (a.listing)(e.path).len(),
        !is_unusable((a.listing)(e.path)[i]),
    ensures
        is_sent(
            subtree(rules, a, w, levels),
            a,
            work_for(e, root_dev),
            (a.listing)(e.path)[i],
        ),
    decreases levels, 0nat,
{
    let fewer = (levels - 1) as nat;
    let work = dir_work(rules, a, w);
    let child = work_for(e, w.root_dev);
    let asked = work_for(e, root_dev);
    let raw = (a.listing)(e.path)[i];
    assert(all_end(rules, a, work, fewer));
    assert forall|k: int| 0 <= k < work.len() implies (#[trigger] work[k]).root_dev
        == w.root_dev by {}
    if dir_results(rules, a, w).to_multiset().count(Ok::<Entry, Failure>(e)) > 0 {
        let l = lemma_sent_is_listed(rules, a, w, e);
        let raws = (a.listing)(w.path);
        let entered = |raw: RawEntry| is_entered(rules, a, w, raw);
        assert(is_entered(rules, a, w, raws[l]));
        assert(limit_allows(rules, w.depth));
        law_every_listed_directory_is_entered(rules, a, w);
        lemma_names_for(rules, a, w, raws, raws.len() as int, l);
        let at = listed_with(raws, entered, l) as int;
        assert(at < work.len() && work[at].path == e.path);
        assert(work[at] == child);
        assert(ends(rules, a, work[at], fewer));
        lemma_listing_in_subtree(rules, a, child, fewer, i);
        lemma_sent_among(rules, a, work, fewer, at, child, raw);
        let sent = choose|sent: Entry| #[trigger]
            subtrees(rules, a, work, fewer).count(Ok::<Entry, Failure>(sent)) > 0 && is_entry_for(
                a,
                child,
                raw,
                sent,
            );
        assert(is_entry_for(a, asked, raw, sent));
    } else {
        lemma_sent_directory_is_read_below(rules, a, work, root_dev, fewer, e, i);
    }
    let sent = choose|sent: Entry| #[trigger]
        subtrees(rules, a, work, fewer).count(Ok::<Entry, Failure>(sent)) > 0 && is_entry_for(
            a,
            asked,
            raw,
            sent,
        );
    assert(subtree(rules, a, w, levels).count(Ok::<Entry, Failure>(sent)) > 0);
}

proof fn lemma_sent_directory_is_read_below(
    rules: WalkRules,
    a: Answers,
    ws: Seq<Work>,
    root_dev: u64,
    levels: nat,
    e: Entry,
    i: int,
)
    requires
        all_end(rules, a, ws, levels),
        rules.same_filesystem ==> forall|k: int|
            0 <= k < ws.len() ==> (#[trigger] ws[k]).root_dev == root_dev,
        subtrees(rules, a, ws, levels).count(Ok::<Entry, Failure>(e)) > 0,
        e.file_type == FileType::Directory,
        rules.max_depth == 0 || e.depth < rules.max_depth,
        can_be_read(rules, a, work_for(e, root_dev)),
        0 <= i < (a.listing)(e.path).len(),
        !is_unusable((a.listing)(e.path)[i]),
    ensures
        is_sent(
            subtrees(rules, a, ws, levels),
            a,
            work_for(e, root_dev),
            (a.listing)(e.path)[i],
        ),
    decreases levels, ws.len() + 1,
{
    let last = ws.len() - 1;
    assert(rules.same_filesystem ==> ws[last].root_dev == root_dev);
    assert(ends(rules, a, ws[last], levels));
    let child = work_for(e, root_dev);
    let raw = (a.listing)(e.path)[i];
    if subtree(rules, a, ws.last(), levels).count(Ok::<Entry, Failure>(e)) > 0 {
        lemma_sent_directory_is_read(rules, a, ws[last], root_dev, levels, e, i);
        lemma_sent_among(rules, a, ws, levels, last, child, raw);
    } else {
        let fewer = ws.drop_last();
        assert(all_end(rules, a, fewer, levels)) by {
            assert forall|k: int| 0 <= k < fewer.len() implies ends(
                rules,
                a,
                #[trigger] fewer[k],
                levels,
            ) by {
                assert(fewer[k] == ws[k]);
            }
        }
        assert(rules.same_filesystem ==> forall|k: int|
            0 <= k < fewer.len() ==> (#[trigger] fewer[k]).root_dev == root_dev) by {
            assert forall|k: int| 0 <= k < fewer.len() implies #[trigger] fewer[k] == ws[k] by {}
        }
        lemma_sent_directory_is_read_below(rules, a, fewer, root_dev, levels, e, i);
        let sent = choose|sent: Entry| #[trigger]
            subtrees(rules, a, fewer, levels).count(Ok::<Entry, Failure>(sent)) > 0
                && is_entry_for(a, child, raw, sent);
        assert(subtrees(rules, a, ws, levels).count(Ok::<Entry, Failure>(sent)) > 0);
    }
}

/// Every directory that a whole walk hands out is read in turn, whatever it is
/// called: for each entry of its listing the walk hands out an entry too, so
/// that nothing below a root is missed. The exceptions are directories at the
/// depth limit, those that cannot be opened or examined, and those on another
/// file system where the walk stays on that of its roots.
pub proof fn law_found_directories_are_read(
    rules: WalkRules,
    a: Answers,
    start: Seq<Work>,
    moves: Seq<WalkMove>,
    root_dev: u64,
    e: Entry,
    i: int,
)
    requires
        is_whole_walk(rules, a, start, moves),
        rules.same_filesystem ==> forall|k: int|
            0 <= k < start.len() ==> (#[trigger] start[k]).root_dev == root_dev,
        walk_results(rules, a, start, moves).count(Ok::<Entry, Failure>(e)) > 0,
        e.file_type == FileType::Directory,
        rules.max_depth == 0 || e.depth < rules.max_depth,
        can_be_read(rules, a, work_for(e, root_dev)),
        0 <= i < (a.listing)(e.path).len(),
        !is_unusable((a.listing)(e.path)[i]),
    ensures
        is_sent(
            walk_results(rules, a, start, moves),
            a,
            work_for(e, root_dev),
            (a.listing)(e.path)[i],
        ),
{
    lemma_whole_walk_ends(rules, a, start, moves, moves.len());
    law_walk_sends_each_directory_once(rules, a, start, moves.len(), moves);
    lemma_sent_directory_is_read_below(rules, a, start, root_dev, moves.len(), e, i);
}

/// Every root that a whole walk starts with is read: for each entry of its
/// listing the walk hands out an entry.
pub proof fn law_roots_are_read(
    rules: WalkRules,
    a: Answers,
    start: Seq<Work>,
    moves: Seq<WalkMove>,
    k: int,
    i: int,
)
    requires
        is_whole_walk(rules, a, start, moves),
        0 <= k < start.len(),
        can_be_read(rules, a, start[k]),
        0 <= i < (a.listing)(start[k].path).len(),
        !is_unusable((a.listing)(start[k].path)[i]),
    ensures
        is_sent(
            walk_results(rules, a, start, moves),
            a,
            start[k],
            (a.listing)(start[k].path)[i],
        ),
{
    lemma_whole_walk_ends(rules, a, start, moves, moves.len());
    law_walk_sends_each_directory_once(rules, a, start, moves.len(), moves);
    assert(ends(rules, a, start[k], moves.len()));
    lemma_listing_in_subtree(rules, a, start[k], moves.len(), i);
    lemma_sent_among(
        rules,
        a,
        start,
        moves.len(),
        k,
        start[k],
        (a.listing)(start[k].path)[i],
    );
}

/// Whether an entry is one of the listing of a directory that can be read.
pub open spec fn was_listed(rules: WalkRules, a: Answers, w: Work, i: int, e: Entry) -> bool {
    &&& can_be_read(rules, a, w)
    &&& 0 <= i < (a.listing)(w.path).len()
    &&& is_entry_for(a, w, (a.listing)(w.path)[i], e)
}

proof fn lemma_subtree_was_listed(rules: WalkRules, a: Answers, w: Work, levels: nat, e: Entry)
    requires
        subtree(rules, a, w, levels).count(Ok::<Entry, Failure>(e)) > 0,
    ensures
        exists|from: Work, i: int| #[trigger] was_listed(rules, a, from, i, e),
    decreases levels, 0nat,
{
    if dir_results(rules, a, w).to_multiset().count(Ok::<Entry, Failure>(e)) > 0 {
        let i = lemma_sent_is_listed(rules, a, w, e);
        assert(was_listed(rules, a, w, i, e));
    } else {
        lemma_subtrees_were_listed(rules, a, dir_work(rules, a, w), (levels - 1) as nat, e);
    }
}

proof fn lemma_subtrees_were_listed(
    rules: WalkRules,
    a: Answers,
    ws: Seq<Work>,
    levels: nat,
    e: Entry,
)
    requires
        subtrees(rules, a, ws, levels).count(Ok::<Entry, Failure>(e)) > 0,
    ensures
        exists|from: Work, i: int| #[trigger] was_listed(rules, a, from, i, e),
    decreases levels, ws.len() + 1,
{
    if subtree(rules, a, ws.last(), levels).count(Ok::<Entry, Failure>(e)) > 0 {
        lemma_subtree_was_listed(rules, a, ws.last(), levels, e);
    } else {
        lemma_subtrees_were_listed(rules, a, ws.drop_last(), levels, e);
    }
}

/// A whole walk makes nothing up: every entry that it hands out is one that the
/// listing of some directory has.
pub proof fn law_only_listed_entries_are_sent(
    rules: WalkRules,
    a: Answers,
    start: Seq<Work>,
    moves: Seq<WalkMove>,
    e: Entry,
)
    requires
        is_whole_walk(rules, a, start, moves),
        walk_results(rules, a, start, moves).count(Ok::<Entry, Failure>(e)) > 0,
    ensures
        exists|from: Work, i: int| #[trigger] was_listed(rules, a, from, i, e),
{
    lemma_whole_walk_ends(rules, a, start, moves, moves.len());
    law_walk_sends_each_directory_once(rules, a, start, moves.len(), moves);
    lemma_subtrees_were_listed(rules, a, start, moves.len(), e);
}

} // verus!
