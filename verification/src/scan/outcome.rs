//! What the result of a scan says of the results of its walk.
use crate::paths::{byte_strings, child_path, has_prefix, lemma_root_of, root_of};
use crate::scan::aggregator::ScanResult;
use crate::scan::config::{counted_size, or_zero, ScanConfig, SizeMode};
use crate::scan::laws::lemma_one_tally_per_root;
use crate::scan::places::{
    are_components, entries_below, is_at, is_component, joined, law_directory_totals, leads_along,
    lemma_at_below_root, lemma_child_node, lemma_no_records_from, lemma_node_from,
    lemma_records_from_push, lemma_step_along, node_at, records_from, step_along,
};
use crate::scan::progress::{interval_has_passed, ScanProgress};
use crate::scan::scanner::{
    is_result_of, outcome, record_of, root_tallies, tally, ScanState, Scanner,
};
use crate::scan::tree::{
    child_names, head, is_tree_of, lemma_root_records_push, lemma_total_push, own_record, relative,
    root_records, total, Record,
};
use crate::seqs::lemma_filter_push;
use crate::sys::FileType;
use crate::text::utf8_lossy;
use crate::walk::entry::{DirEntry, Entry};
use crate::walk::error::WalkError;
use crate::walk::walker::{all_said, errors_of, said};
use vstd::prelude::*;

verus! {

/// The sum of what a weight gives to the first `n` numbers.
pub open spec fn sum_of(n: int, weight: spec_fn(int) -> nat) -> nat
    decreases n,
{
    if n <= 0 {
        0
    } else {
        sum_of(n - 1, weight) + weight(n - 1)
    }
}

/// How many of the first `n` numbers have a property.
pub open spec fn number_of(n: int, property: spec_fn(int) -> bool) -> nat {
    sum_of(
        n,
        |i: int|
            if property(i) {
                1
            } else {
                0
            },
    )
}

pub open spec fn is_file(result: Result<DirEntry, WalkError>) -> bool {
    result matches Ok(entry) && entry.file_type == FileType::File
}

pub open spec fn is_directory(result: Result<DirEntry, WalkError>) -> bool {
    result matches Ok(entry) && entry.file_type == FileType::Directory
}

/// Whether a result is a file that is not known to have a single name.
pub open spec fn is_file_with_links(result: Result<DirEntry, WalkError>) -> bool {
    is_file(result) && !(result->Ok_0.nlink matches Some(n) && n <= 1)
}

/// Whether two results are names of one file.
pub open spec fn is_same_file(
    a: Result<DirEntry, WalkError>,
    b: Result<DirEntry, WalkError>,
) -> bool {
    &&& is_file_with_links(a)
    &&& is_file_with_links(b)
    &&& a->Ok_0.dev == b->Ok_0.dev
    &&& a->Ok_0.ino == b->Ok_0.ino
}

/// Whether the result at `i` is a file that is counted: where hard links are
/// recognised, not if an earlier result is another name of it.
pub open spec fn is_counted(
    config: ScanConfig,
    results: Seq<Result<DirEntry, WalkError>>,
    i: int,
) -> bool {
    &&& is_file(results[i])
    &&& config.dedup_hardlinks ==> forall|j: int|
        0 <= j < i ==> !is_same_file(#[trigger] results[j], results[i])
}

/// Whether the result at `i` has a place in the tree.
pub open spec fn has_place(
    config: ScanConfig,
    results: Seq<Result<DirEntry, WalkError>>,
    i: int,
) -> bool {
    is_counted(config, results, i) || is_directory(results[i])
}

/// Whether the root at `k` is the first that the entry lies below.
pub open spec fn belongs_to(config: ScanConfig, entry: DirEntry, k: int) -> bool {
    &&& has_prefix(entry.path@, config.roots@[k]@)
    &&& forall|j: int| 0 <= j < k ==> !has_prefix(entry.path@, (#[trigger] config.roots@[j])@)
}

/// The disk usage of a file, or its apparent size where that is not known.
pub open spec fn usage_or_length(entry: DirEntry) -> nat {
    match (entry.disk_usage, entry.apparent_size) {
        (Some(usage), _) => usage as nat,
        (None, Some(length)) => length as nat,
        (None, None) => 0,
    }
}

/// The apparent size of a file, or its disk usage where that is not known.
pub open spec fn length_or_usage(entry: DirEntry) -> nat {
    match (entry.apparent_size, entry.disk_usage) {
        (Some(length), _) => length as nat,
        (None, Some(usage)) => usage as nat,
        (None, None) => 0,
    }
}

/// The size that was asked for, by the scan's size mode.
pub open spec fn wanted_size(config: ScanConfig, entry: DirEntry) -> nat {
    match config.size_mode {
        SizeMode::DiskUsage => usage_or_length(entry),
        SizeMode::ApparentSize => length_or_usage(entry),
    }
}

/// The size that a scan counts for an entry is the one that was asked for,
/// whatever the other one is. The other one stands in only where the one that
/// was asked for is not known.
pub proof fn law_size_is_the_one_asked_for(entry: Entry, other: Option<u64>, size: u64)
    ensures
        counted_size(
            SizeMode::DiskUsage,
            Entry { disk_usage: Some(size), apparent_size: other, ..entry },
        ) == size,
        counted_size(
            SizeMode::ApparentSize,
            Entry { apparent_size: Some(size), disk_usage: other, ..entry },
        ) == size,
        counted_size(
            SizeMode::DiskUsage,
            Entry { disk_usage: None, apparent_size: Some(size), ..entry },
        ) == size,
        counted_size(
            SizeMode::ApparentSize,
            Entry { apparent_size: None, disk_usage: Some(size), ..entry },
        ) == size,
        forall|mode: SizeMode| #[trigger]
            counted_size(mode, Entry { apparent_size: None, disk_usage: None, ..entry }) == 0,
{
}

/// What is known of the files that were looked up after the first `n` results.
proof fn lemma_seen(config: ScanConfig, results: Seq<Result<DirEntry, WalkError>>, n: int)
    requires
        0 <= n <= results.len(),
        config.dedup_hardlinks,
    ensures
        forall|id: (u64, u64)| #[trigger]
            tally(config.counting(), all_said(results).take(n)).seen.contains(id) <==> exists|j: int|
                0 <= j < n && is_file_with_links(#[trigger] results[j]) && (
                results[j]->Ok_0.dev,
                results[j]->Ok_0.ino,
                ) == id,
    decreases n,
{
    if n > 0 {
        lemma_seen(config, results, n - 1);
        let views = all_said(results);
        assert(views.take(n).drop_last() =~= views.take(n - 1));
        assert(views.take(n).last() == said(results[n - 1]));
        let before = tally(config.counting(), views.take(n - 1)).seen;
        let after = tally(config.counting(), views.take(n)).seen;
        assert forall|id: (u64, u64)| #[trigger] after.contains(id) <==> exists|j: int|
            0 <= j < n && is_file_with_links(#[trigger] results[j]) && (
            results[j]->Ok_0.dev,
            results[j]->Ok_0.ino,
            ) == id by {
            let last = is_file_with_links(results[n - 1]) && (
            results[n - 1]->Ok_0.dev,
            results[n - 1]->Ok_0.ino,
            ) == id;
            assert(after.contains(id) == (before.contains(id) || last));
            if before.contains(id) {
                let j = choose|j: int|
                    0 <= j < n - 1 && is_file_with_links(#[trigger] results[j]) && (
                    results[j]->Ok_0.dev,
                    results[j]->Ok_0.ino,
                    ) == id;
                assert(is_file_with_links(results[j]));
            }
        }
    } else {
        assert(all_said(results).take(0) =~= Seq::empty());
    }
}

/// The numbers after the first `n` results.
proof fn lemma_totals(config: ScanConfig, results: Seq<Result<DirEntry, WalkError>>, n: int)
    requires
        0 <= n <= results.len(),
    ensures
        ({
            let t = tally(config.counting(), all_said(results).take(n));
            &&& t.total_size == sum_of(
                n,
                |i: int|
                    if is_counted(config, results, i) {
                        wanted_size(config, results[i]->Ok_0)
                    } else {
                        0
                    },
            )
            &&& t.file_count == number_of(n, |i: int| is_counted(config, results, i))
            &&& t.deduped_count == number_of(
                n,
                |i: int| is_file(results[i]) && !is_counted(config, results, i),
            )
            &&& t.dir_count == number_of(n, |i: int| is_directory(results[i]))
            &&& t.skipped_count == number_of(
                n,
                |i: int| results[i] is Ok && !is_file(results[i]) && !is_directory(results[i]),
            )
            &&& t.error_count == number_of(n, |i: int| results[i] is Err)
        }),
    decreases n,
{
    let views = all_said(results);
    if n > 0 {
        lemma_totals(config, results, n - 1);
        lemma_next_is_counted(config, results, n);
    } else {
        assert(views.take(0) =~= Seq::empty());
    }
}

/// Whether the next result is a file that is counted.
proof fn lemma_next_is_counted(
    config: ScanConfig,
    results: Seq<Result<DirEntry, WalkError>>,
    n: int,
)
    requires
        0 < n <= results.len(),
    ensures
        all_said(results).take(n).drop_last() == all_said(results).take(n - 1),
        all_said(results).take(n).last() == said(results[n - 1]),
        is_file(results[n - 1]) ==> crate::scan::scanner::is_repeated(
            config.counting(),
            tally(config.counting(), all_said(results).take(n - 1)),
            results[n - 1]->Ok_0@,
        ) == !is_counted(config, results, n - 1),
{
    let views = all_said(results);
    assert(views.take(n).drop_last() =~= views.take(n - 1));
    assert(views.take(n).last() == said(results[n - 1]));
    let last = results[n - 1];
    let seen = tally(config.counting(), views.take(n - 1)).seen;
    if is_file(last) && config.dedup_hardlinks {
        lemma_seen(config, results, n - 1);
        let id = (last->Ok_0.dev, last->Ok_0.ino);
        if is_file_with_links(last) {
            if seen.contains(id) {
                let j = choose|j: int|
                    0 <= j < n - 1 && is_file_with_links(#[trigger] results[j]) && (
                    results[j]->Ok_0.dev,
                    results[j]->Ok_0.ino,
                    ) == id;
                assert(is_same_file(results[j], last));
            } else {
                assert forall|j: int| 0 <= j < n - 1 implies !is_same_file(
                    #[trigger] results[j],
                    last,
                ) by {
                    if is_same_file(results[j], last) {
                        assert(is_file_with_links(results[j]));
                    }
                }
            }
        }
    }
}

/// The root that an entry is counted under is the one that it belongs to.
proof fn lemma_belongs(config: ScanConfig, entry: DirEntry, k: int)
    requires
        0 <= k < config.roots@.len(),
    ensures
        root_of(entry.path@, byte_strings(config.roots@)) == Some(k) <==> belongs_to(
            config,
            entry,
            k,
        ),
{
    let roots = byte_strings(config.roots@);
    lemma_root_of(entry.path@, roots);
    assert forall|j: int| 0 <= j < roots.len() implies #[trigger] roots[j] == config.roots@[j]@ by {}
    if belongs_to(config, entry, k) {
        assert(has_prefix(entry.path@, roots[k]));
        let found = root_of(entry.path@, roots)->Some_0;
        if found < k {
            assert(has_prefix(entry.path@, config.roots@[found]@));
        }
    }
    if root_of(entry.path@, roots) == Some(k) {
        assert forall|j: int| 0 <= j < k implies !has_prefix(
            entry.path@,
            (#[trigger] config.roots@[j])@,
        ) by {
            assert(!has_prefix(entry.path@, roots[j]));
        }
    }
}

/// The numbers of a root after the first `n` results.
proof fn lemma_root_totals(
    config: ScanConfig,
    results: Seq<Result<DirEntry, WalkError>>,
    k: int,
    n: int,
)
    requires
        0 <= n <= results.len(),
        0 <= k < config.roots@.len(),
    ensures
        ({
            let t = tally(config.counting(), all_said(results).take(n)).roots[k];
            &&& t.total_size == sum_of(
                n,
                |i: int|
                    if is_counted(config, results, i) && belongs_to(config, results[i]->Ok_0, k) {
                        wanted_size(config, results[i]->Ok_0)
                    } else {
                        0
                    },
            )
            &&& t.file_count == number_of(
                n,
                |i: int|
                    is_counted(config, results, i) && belongs_to(config, results[i]->Ok_0, k),
            )
            &&& t.dir_count == number_of(
                n,
                |i: int| is_directory(results[i]) && belongs_to(config, results[i]->Ok_0, k),
            )
        }),
    decreases n,
{
    let views = all_said(results);
    let c = config.counting();
    if n > 0 {
        lemma_root_totals(config, results, k, n - 1);
        lemma_next_is_counted(config, results, n);
        lemma_one_tally_per_root(c, views.take(n - 1));
        if results[n - 1] is Ok {
            lemma_root_of(results[n - 1]->Ok_0.path@, c.roots);
            lemma_belongs(config, results[n - 1]->Ok_0, k);
        }
    } else {
        assert(views.take(0) =~= Seq::empty());
    }
}

/// Whether a result says of the results of a walk what was asked for: the total
/// is the sum of the sizes of the files, in the size that was asked for, each
/// file that has several names taken at the first of them if hard links are
/// recognised; files, repeated files, directories, other entries and errors are
/// each counted; every root has the same numbers for the entries that belong to
/// it; and there is a tree for each root if trees were asked for.
pub open spec fn tells_of(
    result: ScanResult,
    config: ScanConfig,
    results: Seq<Result<DirEntry, WalkError>>,
) -> bool {
    let n = results.len() as int;
    &&& result.total_size == sum_of(
        n,
        |i: int|
            if is_counted(config, results, i) {
                wanted_size(config, results[i]->Ok_0)
            } else {
                0
            },
    )
    &&& result.file_count == number_of(n, |i: int| is_counted(config, results, i))
    &&& result.deduped_count == number_of(
        n,
        |i: int| is_file(results[i]) && !is_counted(config, results, i),
    )
    &&& result.dir_count == number_of(n, |i: int| is_directory(results[i]))
    &&& result.skipped_count == number_of(
        n,
        |i: int| results[i] is Ok && !is_file(results[i]) && !is_directory(results[i]),
    )
    &&& result.error_count == number_of(n, |i: int| results[i] is Err)
    &&& result.roots@.len() == config.roots@.len()
    &&& forall|k: int|
        0 <= k < config.roots@.len() ==> {
            let root = #[trigger] result.roots@[k];
            &&& root.path@ == config.roots@[k]@
            &&& root.total_size == sum_of(
                n,
                |i: int|
                    if is_counted(config, results, i) && belongs_to(config, results[i]->Ok_0, k) {
                        wanted_size(config, results[i]->Ok_0)
                    } else {
                        0
                    },
            )
            &&& root.file_count == number_of(
                n,
                |i: int|
                    is_counted(config, results, i) && belongs_to(config, results[i]->Ok_0, k),
            )
            &&& root.dir_count == number_of(
                n,
                |i: int| is_directory(results[i]) && belongs_to(config, results[i]->Ok_0, k),
            )
        }
    &&& result.tree is Some == config.build_tree
    &&& result.tree matches Some(trees) ==> trees@.len() == config.roots@.len()
}

/// The result of a scan says of the results of its walk what was asked for.
pub proof fn law_scan_counts_what_was_walked(
    config: ScanConfig,
    results: Seq<Result<DirEntry, WalkError>>,
    result: ScanResult,
)
    requires
        is_result_of(
            result,
            config.counting(),
            tally(config.counting(), all_said(results)),
        ),
    ensures
        tells_of(result, config, results),
{
    let views = all_said(results);
    let t = tally(config.counting(), views);
    assert(views.take(results.len() as int) =~= views);
    lemma_totals(config, results, results.len() as int);
    assert forall|k: int| 0 <= k < config.roots@.len() implies {
        let root = #[trigger] result.roots@[k];
        &&& root.path@ == config.roots@[k]@
        &&& root.total_size == t.roots[k].total_size
        &&& root.file_count == t.roots[k].file_count
        &&& root.dir_count == t.roots[k].dir_count
    } by {
        assert(config.counting().roots[k] == config.roots@[k]@);
        assert(root_tallies(result.roots@)[k] == t.roots[k]);
    }
    assert forall|k: int| 0 <= k < config.roots@.len() implies {
        let root = #[trigger] t.roots[k];
        &&& root.total_size == sum_of(
            results.len() as int,
            |i: int|
                if is_counted(config, results, i) && belongs_to(config, results[i]->Ok_0, k) {
                    wanted_size(config, results[i]->Ok_0)
                } else {
                    0
                },
        )
        &&& root.file_count == number_of(
            results.len() as int,
            |i: int|
                is_counted(config, results, i) && belongs_to(config, results[i]->Ok_0, k),
        )
        &&& root.dir_count == number_of(
            results.len() as int,
            |i: int| is_directory(results[i]) && belongs_to(config, results[i]->Ok_0, k),
        )
    } by {
        lemma_root_totals(config, results, k, results.len() as int);
    }
}

/// The path that the names lead to from the root at `k`.
pub open spec fn place_of(config: ScanConfig, k: int, names: Seq<Seq<u8>>) -> Seq<u8> {
    if names.len() == 0 {
        config.roots@[k]@
    } else {
        child_path(config.roots@[k]@, joined(names))
    }
}

/// Whether the result at `i` has a place in the tree of the root at `k`, at or
/// below the path that the names lead to.
pub open spec fn is_under(
    config: ScanConfig,
    results: Seq<Result<DirEntry, WalkError>>,
    i: int,
    k: int,
    names: Seq<Seq<u8>>,
) -> bool {
    &&& has_place(config, results, i)
    &&& belongs_to(config, results[i]->Ok_0, k)
    &&& has_prefix(results[i]->Ok_0.path@, place_of(config, k, names))
}

/// Whether the result at `i` stands for the node that the names lead to.
pub open spec fn stands_for(
    config: ScanConfig,
    results: Seq<Result<DirEntry, WalkError>>,
    i: int,
    k: int,
    names: Seq<Seq<u8>>,
) -> bool {
    &&& is_under(config, results, i, k, names)
    &&& is_at(results[i]->Ok_0.path@, place_of(config, k, names))
}

/// How the records grow with the next result.
proof fn lemma_next_record(
    config: ScanConfig,
    results: Seq<Result<DirEntry, WalkError>>,
    n: int,
)
    requires
        0 < n <= results.len(),
        config.build_tree,
    ensures
        ({
            let before = tally(config.counting(), all_said(results).take(n - 1)).records;
            let after = tally(config.counting(), all_said(results).take(n)).records;
            if has_place(config, results, n - 1) {
                let entry = results[n - 1]->Ok_0;
                after == before.push(
                    Record {
                        rest: entry.path@,
                        apparent_size: or_zero(entry.apparent_size),
                        disk_usage: or_zero(entry.disk_usage),
                        is_dir: is_directory(results[n - 1]),
                        depth: entry.depth,
                    },
                )
            } else {
                after == before
            }
        }),
{
    lemma_next_is_counted(config, results, n);
}

/// The records of the place that names lead to, after the first `n` results.
spec fn records_there(
    config: ScanConfig,
    results: Seq<Result<DirEntry, WalkError>>,
    k: int,
    names: Seq<Seq<u8>>,
    n: int,
) -> Seq<Record> {
    records_from(
        root_records(
            tally(config.counting(), all_said(results).take(n)).records,
            byte_strings(config.roots@),
            k,
        ),
        names,
    )
}

/// How the records of a place grow with the next result.
proof fn lemma_next_record_there(
    config: ScanConfig,
    results: Seq<Result<DirEntry, WalkError>>,
    k: int,
    names: Seq<Seq<u8>>,
    n: int,
)
    requires
        0 < n <= results.len(),
        config.build_tree,
        0 <= k < config.roots@.len(),
        are_components(names),
        names.len() > 0,
    ensures
        ({
            let before = records_there(config, results, k, names, n - 1);
            let after = records_there(config, results, k, names, n);
            if is_under(config, results, n - 1, k, names) {
                &&& after.len() == before.len() + 1
                &&& after.drop_last() == before
                &&& after.last().is_dir == is_directory(results[n - 1])
                &&& after.last().depth == results[n - 1]->Ok_0.depth
                &&& (after.last().rest.len() == 0) == stands_for(config, results, n - 1, k, names)
            } else {
                after == before
            }
        }),
{
    let roots = byte_strings(config.roots@);
    let recs = tally(config.counting(), all_said(results).take(n - 1)).records;
    lemma_next_record(config, results, n);
    if has_place(config, results, n - 1) {
        let entry = results[n - 1]->Ok_0;
        let r = Record {
            rest: entry.path@,
            apparent_size: or_zero(entry.apparent_size),
            disk_usage: or_zero(entry.disk_usage),
            is_dir: is_directory(results[n - 1]),
            depth: entry.depth,
        };
        lemma_root_records_push(recs, r, roots, k);
        lemma_belongs(config, entry, k);
        if belongs_to(config, entry, k) {
            let seen = Record { rest: relative(r.rest, roots[k]), ..r };
            assert(roots[k] == config.roots@[k]@);
            lemma_records_from_push(root_records(recs, roots, k), seen, names);
            lemma_at_below_root(r.rest, roots[k], names);
            if leads_along(seen.rest, names) {
                lemma_step_along(seen, names);
                let before = records_there(config, results, k, names, n - 1);
                assert(before.push(step_along(seen, names)).drop_last() =~= before);
            }
        }
    }
}

/// What the records of a place are, after the first `n` results: `i` is the last
/// that stands for the place, if there is one.
proof fn lemma_records_there(
    config: ScanConfig,
    results: Seq<Result<DirEntry, WalkError>>,
    k: int,
    names: Seq<Seq<u8>>,
    n: int,
    i: int,
)
    requires
        0 <= n <= results.len(),
        config.build_tree,
        0 <= k < config.roots@.len(),
        are_components(names),
        names.len() > 0,
    ensures
        ({
            let there = records_there(config, results, k, names, n);
            &&& there.len() == number_of(n, |j: int| is_under(config, results, j, k, names))
            &&& child_names(there).len() > 0 <==> exists|j: int|
                #![trigger results[j]]
                0 <= j < n && is_under(config, results, j, k, names) && !stands_for(
                    config,
                    results,
                    j,
                    k,
                    names,
                )
            &&& 0 <= i < n && stands_for(config, results, i, k, names) && (forall|j: int|
                #![trigger results[j]]
                i < j < n ==> !stands_for(config, results, j, k, names)) ==> {
                &&& own_record(there) is Some
                &&& own_record(there)->Some_0.is_dir == is_directory(results[i])
                &&& own_record(there)->Some_0.depth == results[i]->Ok_0.depth
            }
            &&& (forall|j: int|
                #![trigger results[j]]
                0 <= j < n ==> !stands_for(config, results, j, k, names)) ==> own_record(
                there,
            ) is None
        }),
    decreases n,
{
    let there = records_there(config, results, k, names, n);
    if n == 0 {
        assert(all_said(results).take(0) =~= Seq::empty());
        reveal(Seq::filter);
        assert(root_records(Seq::<Record>::empty(), byte_strings(config.roots@), k) =~= Seq::<
            Record,
        >::empty());
        lemma_no_records_from(names);
    } else {
        let before = records_there(config, results, k, names, n - 1);
        lemma_records_there(config, results, k, names, n - 1, i);
        lemma_next_record_there(config, results, k, names, n);
        if forall|j: int|
            #![trigger results[j]]
            0 <= j < n ==> !stands_for(config, results, j, k, names) {
            assert(results[n - 1] == results[n - 1]);
            assert(!stands_for(config, results, n - 1, k, names));
        }
        let under = is_under(config, results, n - 1, k, names);
        let stands = stands_for(config, results, n - 1, k, names);
        if exists|j: int|
            #![trigger results[j]]
            0 <= j < n - 1 && is_under(config, results, j, k, names) && !stands_for(
                config,
                results,
                j,
                k,
                names,
            ) {
            let j = choose|j: int|
                #![trigger results[j]]
                0 <= j < n - 1 && is_under(config, results, j, k, names) && !stands_for(
                    config,
                    results,
                    j,
                    k,
                    names,
                );
            assert(0 <= j < n && results[j] == results[j]);
        }
        if under && !stands {
            assert(results[n - 1] == results[n - 1]);
            assert(child_names(there).len() > 0) by {
                let called = child_names(before);
                if called.contains(head(there.last().rest)) {
                    assert(called.len() > 0);
                }
            }
        }
        if 0 <= i < n && stands_for(config, results, i, k, names) && (forall|j: int|
            #![trigger results[j]]
            i < j < n ==> !stands_for(config, results, j, k, names)) {
            if i < n - 1 {
                assert(!stands_for(config, results, n - 1, k, names)) by {
                    assert(results[n - 1] == results[n - 1]);
                }
            }
        }
    }
}

/// A directory that the walk has found is a directory in the tree, and a file is
/// a file, unless something was found below its path: the node at the path of an
/// entry is a directory if the last entry that was found at that path is one, or
/// some entry lies below it. It has the name and the depth of that entry.
pub proof fn law_tree_keeps_directories(
    config: ScanConfig,
    results: Seq<Result<DirEntry, WalkError>>,
    result: ScanResult,
    k: int,
    names: Seq<Seq<u8>>,
    i: int,
)
    requires
        config.build_tree,
        is_result_of(
            result,
            config.counting(),
            tally(config.counting(), all_said(results)),
        ),
        0 <= k < config.roots@.len(),
        are_components(names),
        names.len() > 0,
        0 <= i < results.len(),
        stands_for(config, results, i, k, names),
        forall|j: int|
            #![trigger results[j]]
            i < j < results.len() ==> !stands_for(config, results, j, k, names),
    ensures
        node_at(result.tree->Some_0@[k], names) is Some,
        ({
            let node = node_at(result.tree->Some_0@[k], names)->Some_0;
            &&& node.name@ == names.last()
            &&& node.depth == results[i]->Ok_0.depth
            &&& node.is_dir <==> {
                ||| is_directory(results[i])
                ||| exists|j: int|
                    #![trigger results[j]]
                    0 <= j < results.len() && is_under(config, results, j, k, names) && !stands_for(
                        config,
                        results,
                        j,
                        k,
                        names,
                    )
            }
        }),
{
    let n = results.len() as int;
    let tree = result.tree->Some_0@[k];
    let roots = byte_strings(config.roots@);
    let recs = root_records(tally(config.counting(), all_said(results)).records, roots, k);
    assert(all_said(results).take(n) =~= all_said(results));
    assert(is_tree_of(tree, roots[k], true, 0, recs));
    lemma_records_there(config, results, k, names, n, i);
    assert(records_from(recs, names) == records_there(config, results, k, names, n));
    lemma_node_from(tree, roots[k], true, 0, recs, names);
}

/// The tree has a node for every entry and for every directory on the way to
/// one, and no others: names lead to a node exactly if some entry lies at or
/// below their path. It is a directory if one lies below. The root of the tree
/// is always there, a directory with the path of the root as its name.
pub proof fn law_tree_has_every_place(
    config: ScanConfig,
    results: Seq<Result<DirEntry, WalkError>>,
    result: ScanResult,
    k: int,
    names: Seq<Seq<u8>>,
)
    requires
        config.build_tree,
        is_result_of(
            result,
            config.counting(),
            tally(config.counting(), all_said(results)),
        ),
        0 <= k < config.roots@.len(),
        are_components(names),
    ensures
        names.len() > 0 ==> (node_at(result.tree->Some_0@[k], names) is Some <==> exists|j: int|
            #![trigger results[j]]
            0 <= j < results.len() && is_under(config, results, j, k, names)),
        names.len() > 0 && (exists|j: int|
            #![trigger results[j]]
            0 <= j < results.len() && is_under(config, results, j, k, names) && !stands_for(
                config,
                results,
                j,
                k,
                names,
            )) ==> node_at(result.tree->Some_0@[k], names)->Some_0.is_dir,
        result.tree->Some_0@[k].is_dir,
        result.tree->Some_0@[k].name@ == config.roots@[k]@,
{
    let n = results.len() as int;
    let tree = result.tree->Some_0@[k];
    let roots = byte_strings(config.roots@);
    let recs = root_records(tally(config.counting(), all_said(results)).records, roots, k);
    assert(all_said(results).take(n) =~= all_said(results));
    assert(is_tree_of(tree, roots[k], true, 0, recs));
    if names.len() > 0 {
        lemma_records_there(config, results, k, names, n, 0);
        let under = |j: int| is_under(config, results, j, k, names);
        lemma_some(n, under);
        assert(records_from(recs, names) == records_there(config, results, k, names, n));
        if records_from(recs, names).len() > 0 {
            lemma_node_from(tree, roots[k], true, 0, recs, names);
            let j = choose|j: int| 0 <= j < n && #[trigger] under(j);
            assert(is_under(config, results, j, k, names) && results[j] == results[j]);
        } else {
            lemma_no_node(tree, roots[k], true, 0, recs, names);
            assert forall|j: int| #![trigger results[j]] 0 <= j < n implies !is_under(
                config,
                results,
                j,
                k,
                names,
            ) by {
                assert(!under(j));
            }
        }
    }
}

/// A directory in the tree that the walk gave no entry for lies one level below
/// the node above it, as far as depths can be counted.
pub proof fn law_implied_directories_have_depths(
    config: ScanConfig,
    results: Seq<Result<DirEntry, WalkError>>,
    result: ScanResult,
    k: int,
    names: Seq<Seq<u8>>,
    last: Seq<u8>,
)
    requires
        config.build_tree,
        is_result_of(
            result,
            config.counting(),
            tally(config.counting(), all_said(results)),
        ),
        0 <= k < config.roots@.len(),
        are_components(names),
        is_component(last),
        node_at(result.tree->Some_0@[k], names.push(last)) is Some,
        forall|j: int|
            #![trigger results[j]]
            0 <= j < results.len() ==> !stands_for(config, results, j, k, names.push(last)),
    ensures
        node_at(result.tree->Some_0@[k], names) is Some,
        ({
            let above = node_at(result.tree->Some_0@[k], names)->Some_0;
            let node = node_at(result.tree->Some_0@[k], names.push(last))->Some_0;
            above.depth < u16::MAX ==> node.depth == above.depth + 1
        }),
{
    let n = results.len() as int;
    let tree = result.tree->Some_0@[k];
    let roots = byte_strings(config.roots@);
    let recs = root_records(tally(config.counting(), all_said(results)).records, roots, k);
    let all = names.push(last);
    assert(are_components(all)) by {
        assert forall|i: int| 0 <= i < all.len() implies is_component(#[trigger] all[i]) by {
            if i < names.len() {
                assert(all[i] == names[i]);
            }
        }
    }
    assert(all_said(results).take(n) =~= all_said(results));
    assert(is_tree_of(tree, roots[k], true, 0, recs));
    lemma_records_there(config, results, k, all, n, 0);
    assert(records_from(recs, all) == records_there(config, results, k, all, n));
    if records_from(recs, all).len() == 0 {
        lemma_no_node(tree, roots[k], true, 0, recs, all);
    }
    lemma_child_node(tree, roots[k], true, 0, recs, names, last);
}

proof fn lemma_own_at_root(
    config: ScanConfig,
    results: Seq<Result<DirEntry, WalkError>>,
    k: int,
    n: int,
)
    requires
        0 <= n <= results.len(),
        config.build_tree,
        0 <= k < config.roots@.len(),
        forall|j: int|
            #![trigger results[j]]
            0 <= j < n ==> !stands_for(config, results, j, k, Seq::empty()),
    ensures
        own_record(
            root_records(
                tally(config.counting(), all_said(results).take(n)).records,
                byte_strings(config.roots@),
                k,
            ),
        ) is None,
    decreases n,
{
    let roots = byte_strings(config.roots@);
    if n == 0 {
        assert(all_said(results).take(0) =~= Seq::empty());
        reveal(Seq::filter);
        assert(root_records(Seq::<Record>::empty(), roots, k) =~= Seq::<Record>::empty());
    } else {
        lemma_own_at_root(config, results, k, n - 1);
        lemma_next_record(config, results, n);
        let recs = tally(config.counting(), all_said(results).take(n - 1)).records;
        let last = results[n - 1];
        assert(!stands_for(config, results, n - 1, k, Seq::empty()));
        if has_place(config, results, n - 1) {
            let path = last->Ok_0.path@;
            let r = record_of(last->Ok_0@, is_directory(last));
            lemma_root_records_push(recs, r, roots, k);
            lemma_belongs(config, last->Ok_0, k);
            if belongs_to(config, last->Ok_0, k) {
                let root = roots[k];
                let seen = Record { rest: relative(path, root), ..r };
                assert(root == config.roots@[k]@);
                assert(seen.rest.len() > 0) by {
                    if seen.rest.len() == 0 {
                        if root.len() > 0 {
                            assert(path.subrange(0, root.len() as int) =~= root);
                        }
                        if path.len() == root.len() {
                            assert(path =~= root);
                        } else {
                            assert(path =~= root.push(crate::paths::SLASH));
                        }
                    }
                }
                let before = root_records(recs, roots, k);
                assert(before.push(seen).drop_last() =~= before);
            }
        }
    }
}

/// The root of a tree has depth zero, unless the walk gave an entry for it.
pub proof fn law_trees_start_at_depth_zero(
    config: ScanConfig,
    results: Seq<Result<DirEntry, WalkError>>,
    result: ScanResult,
    k: int,
)
    requires
        config.build_tree,
        is_result_of(
            result,
            config.counting(),
            tally(config.counting(), all_said(results)),
        ),
        0 <= k < config.roots@.len(),
        forall|j: int|
            #![trigger results[j]]
            0 <= j < results.len() ==> !stands_for(config, results, j, k, Seq::empty()),
    ensures
        result.tree->Some_0@[k].depth == 0,
{
    let n = results.len() as int;
    let roots = byte_strings(config.roots@);
    let recs = root_records(tally(config.counting(), all_said(results)).records, roots, k);
    assert(all_said(results).take(n) =~= all_said(results));
    assert(is_tree_of(result.tree->Some_0@[k], roots[k], true, 0, recs));
    lemma_own_at_root(config, results, k, n);
}

proof fn lemma_some(n: int, property: spec_fn(int) -> bool)
    ensures
        number_of(n, property) > 0 <==> exists|j: int| 0 <= j < n && #[trigger] property(j),
    decreases n,
{
    if n > 0 {
        lemma_some(n - 1, property);
    }
}

/// Names that no record leads along lead to no node.
proof fn lemma_no_node(
    node: crate::scan::tree::TreeNode,
    name: Seq<u8>,
    dir: bool,
    depth: u16,
    recs: Seq<Record>,
    names: Seq<Seq<u8>>,
)
    requires
        is_tree_of(node, name, dir, depth, recs),
        records_from(recs, names).len() == 0,
        names.len() > 0 || recs.len() > 0,
    ensures
        node_at(node, names) is None,
    decreases names.len(),
{
    let first = names[0];
    let more = names.drop_first();
    let called = child_names(recs);
    crate::scan::places::lemma_child_from(node.children@, first, 0);
    if let Some(i) = crate::scan::places::child_from(node.children@, first, 0) {
        assert(is_tree_of(
            node.children@[i],
            called[i],
            false,
            crate::walk::entry::depth_below(node.depth),
            crate::scan::tree::child_records(recs, called[i]),
        ));
        assert(called[i] == first);
        assert(called.contains(first));
        crate::scan::tree::lemma_named_child(recs, first);
        lemma_no_node(
            node.children@[i],
            first,
            false,
            crate::walk::entry::depth_below(node.depth),
            crate::scan::tree::child_records(recs, first),
            more,
        );
    }
}

/// The apparent size of an entry, where it is known.
pub open spec fn known_length(result: Result<DirEntry, WalkError>) -> nat {
    match result->Ok_0.apparent_size {
        Some(length) => length as nat,
        None => 0,
    }
}

/// The disk usage of an entry, where it is known.
pub open spec fn known_usage(result: Result<DirEntry, WalkError>) -> nat {
    match result->Ok_0.disk_usage {
        Some(usage) => usage as nat,
        None => 0,
    }
}

/// The record of the result at `i`.
spec fn record_at(results: Seq<Result<DirEntry, WalkError>>, i: int) -> Record {
    record_of(results[i]->Ok_0@, is_directory(results[i]))
}

proof fn lemma_entries_sum(
    config: ScanConfig,
    results: Seq<Result<DirEntry, WalkError>>,
    k: int,
    names: Seq<Seq<u8>>,
    n: int,
    of_record: spec_fn(Record) -> nat,
    of_result: spec_fn(int) -> nat,
)
    requires
        config.build_tree,
        0 <= n <= results.len(),
        0 <= k < config.roots@.len(),
        forall|i: int|
            0 <= i < n && has_place(config, results, i) ==> of_record(record_at(results, i))
                == #[trigger] of_result(i),
    ensures
        total(
            entries_below(
                tally(config.counting(), all_said(results).take(n)).records,
                byte_strings(config.roots@),
                k,
                names,
            ),
            of_record,
        ) == sum_of(
            n,
            |i: int|
                if is_under(config, results, i, k, names) {
                    of_result(i)
                } else {
                    0
                },
        ),
    decreases n,
{
    let roots = byte_strings(config.roots@);
    reveal(Seq::filter);
    if n == 0 {
        assert(all_said(results).take(0) =~= Seq::empty());
    } else {
        lemma_entries_sum(config, results, k, names, n - 1, of_record, of_result);
        lemma_next_record(config, results, n);
        let recs = tally(config.counting(), all_said(results).take(n - 1)).records;
        if has_place(config, results, n - 1) {
            let entry = results[n - 1]->Ok_0;
            let r = record_at(results, n - 1);
            assert(of_record(r) == of_result(n - 1));
            lemma_belongs(config, entry, k);
            assert(roots[k] == config.roots@[k]@);
            let below = |r: Record|
                root_of(r.rest, roots) == Some(k) && (names.len() == 0 || has_prefix(
                    r.rest,
                    child_path(roots[k], joined(names)),
                ));
            lemma_filter_push(recs, r, below);
            lemma_total_push(entries_below(recs, roots, k, names), r, of_record);
        }
    }
}

/// The totals of every node are those of the entries at and below its path: both
/// sizes are the sums of the sizes that are known, and files and directories are
/// counted.
pub proof fn law_tree_totals(
    config: ScanConfig,
    results: Seq<Result<DirEntry, WalkError>>,
    result: ScanResult,
    k: int,
    names: Seq<Seq<u8>>,
)
    requires
        config.build_tree,
        is_result_of(
            result,
            config.counting(),
            tally(config.counting(), all_said(results)),
        ),
        0 <= k < config.roots@.len(),
        are_components(names),
        node_at(result.tree->Some_0@[k], names) is Some,
    ensures
        ({
            let node = node_at(result.tree->Some_0@[k], names)->Some_0;
            let n = results.len() as int;
            &&& node.apparent_size == sum_of(
                n,
                |i: int|
                    if is_under(config, results, i, k, names) {
                        known_length(results[i])
                    } else {
                        0
                    },
            )
            &&& node.disk_usage == sum_of(
                n,
                |i: int|
                    if is_under(config, results, i, k, names) {
                        known_usage(results[i])
                    } else {
                        0
                    },
            )
            &&& node.file_count == number_of(
                n,
                |i: int| is_under(config, results, i, k, names) && !is_directory(results[i]),
            )
            &&& node.dir_count == number_of(
                n,
                |i: int| is_under(config, results, i, k, names) && is_directory(results[i]),
            )
        }),
{
    let n = results.len() as int;
    let tree = result.tree->Some_0@[k];
    let roots = byte_strings(config.roots@);
    let recs = tally(config.counting(), all_said(results)).records;
    assert(all_said(results).take(n) =~= all_said(results));
    assert(is_tree_of(tree, roots[k], true, 0, root_records(recs, roots, k)));
    law_directory_totals(tree, recs, roots, k, names);
    lemma_entries_sum(
        config,
        results,
        k,
        names,
        n,
        |r: Record| r.apparent_size as nat,
        |i: int| known_length(results[i]),
    );
    lemma_entries_sum(
        config,
        results,
        k,
        names,
        n,
        |r: Record| r.disk_usage as nat,
        |i: int| known_usage(results[i]),
    );
    let of_file = |i: int|
        if is_directory(results[i]) {
            0nat
        } else {
            1nat
        };
    let of_dir = |i: int|
        if is_directory(results[i]) {
            1nat
        } else {
            0nat
        };
    lemma_entries_sum(
        config,
        results,
        k,
        names,
        n,
        |r: Record|
            if r.is_dir {
                0
            } else {
                1
            },
        of_file,
    );
    lemma_entries_sum(
        config,
        results,
        k,
        names,
        n,
        |r: Record|
            if r.is_dir {
                1
            } else {
                0
            },
        of_dir,
    );
    lemma_same_sums(
        n,
        |i: int|
            if is_under(config, results, i, k, names) {
                known_length(results[i])
            } else {
                0
            },
        |i: int|
            if is_under(config, results, i, k, names) {
                (|i: int| known_length(results[i]))(i)
            } else {
                0
            },
    );
    lemma_same_sums(
        n,
        |i: int|
            if is_under(config, results, i, k, names) {
                known_usage(results[i])
            } else {
                0
            },
        |i: int|
            if is_under(config, results, i, k, names) {
                (|i: int| known_usage(results[i]))(i)
            } else {
                0
            },
    );
    let files = |i: int| is_under(config, results, i, k, names) && !is_directory(results[i]);
    let dirs = |i: int| is_under(config, results, i, k, names) && is_directory(results[i]);
    lemma_same_sums(
        n,
        |i: int|
            if files(i) {
                1
            } else {
                0
            },
        |i: int|
            if is_under(config, results, i, k, names) {
                of_file(i)
            } else {
                0
            },
    );
    lemma_same_sums(
        n,
        |i: int|
            if dirs(i) {
                1
            } else {
                0
            },
        |i: int|
            if is_under(config, results, i, k, names) {
                of_dir(i)
            } else {
                0
            },
    );
}

proof fn lemma_same_sums(n: int, a: spec_fn(int) -> nat, b: spec_fn(int) -> nat)
    requires
        forall|i: int| 0 <= i < n ==> #[trigger] a(i) == b(i),
    ensures
        sum_of(n, a) == sum_of(n, b),
    decreases n,
{
    if n > 0 {
        lemma_same_sums(n - 1, a, b);
        assert(a(n - 1) == b(n - 1));
    }
}

/// [`Scanner::scan_blocking`] says of the results of the walk what the scanner's
/// configuration asks for, and hands back the errors among them in order.
pub proof fn law_scan_blocking(
    scanner: &Scanner,
    results: Vec<Result<DirEntry, WalkError>>,
    end: (ScanResult, Vec<WalkError>),
)
    requires
        call_ensures(Scanner::scan_blocking, (scanner, results), end),
    ensures
        is_result_of(
            end.0,
            scanner.config.counting(),
            tally(scanner.config.counting(), all_said(results@)),
        ),
        tells_of(end.0, scanner.config, results@),
        end.1@.len() == end.0.error_count,
        forall|i: int|
            0 <= i < results@.len() && (#[trigger] results@[i]) is Err ==> {
                let at = number_of(i, |j: int| results@[j] is Err) as int;
                at < end.1@.len() && end.1@[at] == results@[i]->Err_0
            },
{
    law_scan_counts_what_was_walked(scanner.config, results@, end.0);
    let n = results@.len() as int;
    assert(results@.take(n) =~= results@);
    lemma_errors_kept(results@, n, 0);
    assert forall|i: int| 0 <= i < results@.len() && (#[trigger] results@[i]) is Err implies {
        let at = number_of(i, |j: int| results@[j] is Err) as int;
        at < end.1@.len() && end.1@[at] == results@[i]->Err_0
    } by {
        lemma_errors_kept(results@, n, i);
    }
}

proof fn lemma_errors_kept(results: Seq<Result<DirEntry, WalkError>>, n: int, i: int)
    requires
        0 <= n <= results.len(),
    ensures
        ({
            let errors = errors_of(results.take(n));
            let at = number_of(i, |j: int| results[j] is Err) as int;
            &&& errors.len() == number_of(n, |j: int| results[j] is Err)
            &&& 0 <= i < n && results[i] is Err ==> at < errors.len() && errors[at]
                == results[i]->Err_0
        }),
    decreases n,
{
    if n > 0 {
        lemma_errors_kept(results, n - 1, i);
        assert(results.take(n).drop_last() =~= results.take(n - 1));
        assert(results.take(n).last() == results[n - 1]);
    }
}

/// [`ScanState::finish`] gives back the result of what was counted and the errors
/// that were collected, whatever the way in which the results were recorded.
pub proof fn law_scan_finish(
    state: ScanState,
    now: u64,
    end: (ScanProgress, ScanResult, Vec<WalkError>),
)
    requires
        call_ensures(ScanState::finish, (state, now), end),
    ensures
        is_result_of(end.1, state.config.counting(), state@),
        end.2@ == state.errors@,
        end.0.files_scanned == end.1.file_count,
        end.0.dirs_scanned == end.1.dir_count,
        end.0.bytes_scanned == end.1.total_size,
        end.0.errors == end.1.error_count,
        end.0.current_path is None,
        end.0.elapsed_nanos == (if now >= state.progress.start {
            now - state.progress.start
        } else {
            0
        }),
{
}

/// A scan that ended without a result is answered with one error and no counts;
/// any other with its own result.
pub proof fn law_lost_scan_is_an_error(
    received: Option<(ScanResult, Vec<WalkError>)>,
    end: (ScanResult, Vec<WalkError>),
)
    requires
        call_ensures(outcome, (received,), end),
    ensures
        received is Some ==> end == received->Some_0,
        received is None ==> {
            &&& end.0.error_count == 1
            &&& end.1@.len() == 1
            &&& end.1@[0].path is None
            &&& end.1@[0].kind is Io
            &&& end.0.total_size == 0
            &&& end.0.file_count == 0
            &&& end.0.dir_count == 0
            &&& end.0.deduped_count == 0
            &&& end.0.skipped_count == 0
            &&& end.0.roots@.len() == 0
            &&& end.0.tree is None
        },
{
    if received is None {
        assert(end.1@[0]@.path is None);
        assert(end.1@[0]@.kind is Io);
    }
}

/// Whether a file was found before under another name.
pub open spec fn was_seen(state: ScanState, entry: DirEntry) -> bool {
    &&& state.config.dedup_hardlinks
    &&& !(entry.nlink matches Some(n) && n <= 1)
    &&& state@.seen.contains((entry.dev, entry.ino))
}

/// What a root gains by a result: its size, and whether it is a file or a
/// directory.
pub open spec fn root_gains(
    before: ScanState,
    after: ScanState,
    k: int,
    size: nat,
    file: nat,
    dir: nat,
) -> bool {
    &&& after.root_results@[k].total_size == before.root_results@[k].total_size + size
    &&& after.root_results@[k].file_count == before.root_results@[k].file_count + file
    &&& after.root_results@[k].dir_count == before.root_results@[k].dir_count + dir
}

/// What the totals gain by a result.
pub open spec fn totals_gain(
    before: ScanState,
    after: ScanState,
    size: nat,
    file: nat,
    dir: nat,
    deduped: nat,
    skipped: nat,
    error: nat,
) -> bool {
    &&& after.aggregator.result.total_size == before.aggregator.result.total_size + size
    &&& after.aggregator.result.file_count == before.aggregator.result.file_count + file
    &&& after.aggregator.result.dir_count == before.aggregator.result.dir_count + dir
    &&& after.aggregator.result.deduped_count == before.aggregator.result.deduped_count + deduped
    &&& after.aggregator.result.skipped_count == before.aggregator.result.skipped_count + skipped
    &&& after.aggregator.result.error_count == before.aggregator.result.error_count + error
}

/// Recording a result counts it as what it is, once: a file with the size that was
/// asked for, unless it was found before under another name; a directory without
/// a size; any other entry as skipped; an error as one, which is kept. The first
/// root that an entry lies below gains what the totals gain. Progress is reported
/// on files, directories and errors that are counted, if that is due.
pub proof fn law_results_are_recorded(
    state: &mut ScanState,
    result: Result<DirEntry, WalkError>,
    now: u64,
    update: Option<ScanProgress>,
)
    requires
        old(state).wf(),
        old(state).has_room(result),
        call_ensures(ScanState::record, (state, result, now), update),
    ensures
        final(state).config == old(state).config,
        ({
            let size = wanted_size(old(state).config, result->Ok_0);
            let due = interval_has_passed(old(state).progress, now);
            if result is Err {
                &&& totals_gain(*old(state), *final(state), 0, 0, 0, 0, 0, 1)
                &&& final(state).errors@ == old(state).errors@.push(result->Err_0)
                &&& update is Some == due
            } else {
                &&& final(state).errors@ == old(state).errors@
                &&& if is_directory(result) {
                    &&& totals_gain(*old(state), *final(state), 0, 0, 1, 0, 0, 0)
                    &&& update is Some == due
                } else if !is_file(result) {
                    &&& totals_gain(*old(state), *final(state), 0, 0, 0, 0, 1, 0)
                    &&& update is None
                } else if was_seen(*old(state), result->Ok_0) {
                    &&& totals_gain(*old(state), *final(state), 0, 0, 0, 1, 0, 0)
                    &&& update is None
                } else {
                    &&& totals_gain(*old(state), *final(state), size, 1, 0, 0, 0, 0)
                    &&& update is Some == due
                }
            }
        }),
        update matches Some(report) ==> {
            let totals = final(state).aggregator.result;
            &&& report.files_scanned == totals.file_count
            &&& report.dirs_scanned == totals.dir_count
            &&& report.bytes_scanned == totals.total_size
            &&& report.errors == totals.error_count
            &&& now >= old(state).progress.start ==> report.elapsed_nanos == now - old(
                state).progress.start
            &&& result matches Ok(entry) ==> report.current_path is Some
                && report.current_path->Some_0@ == utf8_lossy(entry.path@)
        },
        forall|k: int|
            #![trigger final(state).root_results@[k]]
            0 <= k < old(state).config.roots@.len() ==> {
                let mine = result is Ok && belongs_to(old(state).config, result->Ok_0, k);
                let size = wanted_size(old(state).config, result->Ok_0);
                if mine && is_directory(result) {
                    root_gains(*old(state), *final(state), k, 0, 0, 1)
                } else if mine && is_file(result) && !was_seen(*old(state), result->Ok_0) {
                    root_gains(*old(state), *final(state), k, size, 1, 0)
                } else {
                    root_gains(*old(state), *final(state), k, 0, 0, 0)
                }
            },
{
    let before = *old(state);
    let after = *final(state);
    let c = before.config.counting();
    assert(after@ == crate::scan::scanner::counted(c, before@, said(result)));
    assert forall|k: int|
        #![trigger after.root_results@[k]]
        0 <= k < before.config.roots@.len() implies {
        &&& before@.roots[k].total_size == before.root_results@[k].total_size
        &&& before@.roots[k].file_count == before.root_results@[k].file_count
        &&& before@.roots[k].dir_count == before.root_results@[k].dir_count
        &&& after@.roots[k].total_size == after.root_results@[k].total_size
        &&& after@.roots[k].file_count == after.root_results@[k].file_count
        &&& after@.roots[k].dir_count == after.root_results@[k].dir_count
        &&& result is Ok ==> (root_of(
            result->Ok_0.path@,
            byte_strings(before.config.roots@),
        ) == Some(k) <==> belongs_to(before.config, result->Ok_0, k))
    } by {
        if result is Ok {
            lemma_belongs(before.config, result->Ok_0, k);
        }
    }
    if result is Ok {
        lemma_root_of(result->Ok_0.path@, before.config.counting().roots);
    }
}

/// Whether the tree has room for the sizes of an entry.
pub open spec fn tree_takes(state: ScanState, result: Result<DirEntry, WalkError>) -> bool {
    state.tree matches Some(builder) ==> {
        &&& builder.apparent_total + known_length(result) <= u64::MAX
        &&& builder.disk_total + known_usage(result) <= u64::MAX
    }
}

/// A result fits exactly if none of the numbers that it counts towards would grow
/// too large.
pub proof fn law_results_fit_while_numbers_do(
    state: &ScanState,
    result: &Result<DirEntry, WalkError>,
    fits: bool,
)
    requires
        call_ensures(ScanState::fits, (state, result), fits),
    ensures
        ({
            let totals = state.aggregator.result;
            fits == (if *result is Err {
                totals.error_count < u64::MAX
            } else if is_directory(*result) {
                totals.dir_count < u64::MAX && tree_takes(*state, *result)
            } else if !is_file(*result) {
                totals.skipped_count < u64::MAX
            } else if was_seen(*state, result->Ok_0) {
                totals.deduped_count < u64::MAX
            } else {
                &&& totals.file_count < u64::MAX
                &&& totals.total_size + wanted_size(state.config, result->Ok_0) <= u64::MAX
                &&& tree_takes(*state, *result)
            })
        }),
{
}

/// A scan starts with nothing counted, for the roots of its configuration, and
/// with its clock set.
pub proof fn law_scans_start_empty(scanner: &Scanner, now: u64, state: ScanState)
    requires
        call_ensures(Scanner::start, (scanner, now), state),
    ensures
        state.wf(),
        state.aggregator.result.total_size == 0,
        state.aggregator.result.file_count == 0,
        state.aggregator.result.dir_count == 0,
        state.aggregator.result.error_count == 0,
        state.aggregator.result.deduped_count == 0,
        state.aggregator.result.skipped_count == 0,
        state.errors@.len() == 0,
        state.root_results@.len() == scanner.config.roots@.len(),
        forall|k: int|
            0 <= k < scanner.config.roots@.len() ==> {
                &&& (#[trigger] state.root_results@[k]).path@ == scanner.config.roots@[k]@
                &&& state.root_results@[k].total_size == 0
                &&& state.root_results@[k].file_count == 0
                &&& state.root_results@[k].dir_count == 0
            },
        state.config.size_mode == scanner.config.size_mode,
        state.config.dedup_hardlinks == scanner.config.dedup_hardlinks,
        state.config.build_tree == scanner.config.build_tree,
        forall|id: (u64, u64)| !(#[trigger] state@.seen.contains(id)),
        state.progress.start == now,
        state.progress.last_update == now,
        state.progress.update_interval_ms == 100,
{
    assert(state@.errors.len() == state.errors@.len());
    let mine = byte_strings(state.config.roots@);
    let asked = byte_strings(scanner.config.roots@);
    assert(mine == asked);
    assert(mine.len() == state.config.roots@.len() && asked.len() == scanner.config.roots@.len());
    assert forall|k: int| 0 <= k < scanner.config.roots@.len() implies {
        &&& (#[trigger] state.root_results@[k]).path@ == scanner.config.roots@[k]@
        &&& state.root_results@[k].total_size == 0
        &&& state.root_results@[k].file_count == 0
        &&& state.root_results@[k].dir_count == 0
    } by {
        assert(mine[k] == state.config.roots@[k]@);
        assert(asked[k] == scanner.config.roots@[k]@);
        assert(state@.roots[k].total_size == state.root_results@[k].total_size);
        assert(state@.roots[k].file_count == state.root_results@[k].file_count);
        assert(state@.roots[k].dir_count == state.root_results@[k].dir_count);
    }
}

} // verus!
