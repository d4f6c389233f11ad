//! What holds of every scan.
use crate::paths::{lemma_root_of, root_of};
use crate::scan::aggregator::ScanResult;
use crate::scan::config::counted_size;
use crate::scan::scanner::{
    is_progress, is_result_of, may_be_linked, record_of, root_tallies, tally,
    Counting, RootTally,
};
use crate::scan::tree::{
    dir_records, file_records, lemma_root_records_push, relative, root_records,
    Record,
};
use crate::sys::FileType;
use crate::walk::entry::Entry;
use crate::walk::error::Failure;
use crate::walk::whole::{
    all_results, is_whole_walk, law_order_of_work_does_not_matter, seeds, Answers, WalkMove,
};
use crate::walk::worker::WalkRules;
use vstd::prelude::*;

verus! {

/// Whether a result is an entry of the given type.
pub open spec fn is_of_type(result: Result<Entry, Failure>, file_type: FileType) -> bool {
    result is Ok && result->Ok_0.file_type == file_type
}

/// Whether a result is a file that may have other names.
pub open spec fn is_linked_file(result: Result<Entry, Failure>) -> bool {
    is_of_type(result, FileType::File) && may_be_linked(result->Ok_0)
}

/// Whether a result is a file that has a single name.
pub open spec fn is_single_file(result: Result<Entry, Failure>) -> bool {
    is_of_type(result, FileType::File) && !may_be_linked(result->Ok_0)
}

/// Whether a result is a file that may have other names, with the given device
/// and inode number.
pub open spec fn is_file_with_id(result: Result<Entry, Failure>, id: (u64, u64)) -> bool {
    is_linked_file(result) && (result->Ok_0.dev, result->Ok_0.ino) == id
}

/// The identities among the results of files that may have other names.
pub open spec fn file_ids(results: Seq<Result<Entry, Failure>>) -> Set<(u64, u64)> {
    Set::new(
        |id: (u64, u64)|
            exists|i: int| 0 <= i < results.len() && is_file_with_id(#[trigger] results[i], id),
    )
}

/// The sum of what a weight gives to each result.
pub open spec fn results_total(
    results: Seq<Result<Entry, Failure>>,
    weight: spec_fn(Result<Entry, Failure>) -> nat,
) -> nat
    decreases results.len(),
{
    if results.len() == 0 {
        0
    } else {
        results_total(results.drop_last(), weight) + weight(results.last())
    }
}

/// The number of results with a property.
pub open spec fn count_of(
    results: Seq<Result<Entry, Failure>>,
    property: spec_fn(Result<Entry, Failure>) -> bool,
) -> nat {
    results_total(
        results,
        |r: Result<Entry, Failure>|
            if property(r) {
                1
            } else {
                0
            },
    )
}

/// The sum of the sizes of the files among the results.
pub open spec fn files_size(c: Counting, results: Seq<Result<Entry, Failure>>) -> nat {
    results_total(
        results,
        |r: Result<Entry, Failure>|
            if is_of_type(r, FileType::File) {
                counted_size(c.size_mode, r->Ok_0) as nat
            } else {
                0
            },
    )
}

/// The number of the files among the results that have a single name.
pub open spec fn single_count(results: Seq<Result<Entry, Failure>>) -> nat {
    count_of(results, |r: Result<Entry, Failure>| is_single_file(r))
}

/// The sum of the sizes of the files among the results that have a single name.
pub open spec fn single_size(c: Counting, results: Seq<Result<Entry, Failure>>) -> nat {
    results_total(
        results,
        |r: Result<Entry, Failure>|
            if is_single_file(r) {
                counted_size(c.size_mode, r->Ok_0) as nat
            } else {
                0
            },
    )
}

/// Results are counted by what they are: files are counted or found to be
/// repeated, directories are counted, other entries are skipped, and errors
/// are counted.
pub proof fn law_results_are_counted_by_kind(
    c: Counting,
    results: Seq<Result<Entry, Failure>>,
)
    ensures
        tally(c, results).file_count + tally(c, results).deduped_count == count_of(
            results,
            |r: Result<Entry, Failure>| is_of_type(r, FileType::File),
        ),
        tally(c, results).dir_count == count_of(
            results,
            |r: Result<Entry, Failure>| is_of_type(r, FileType::Directory),
        ),
        tally(c, results).skipped_count == count_of(
            results,
            |r: Result<Entry, Failure>|
                r is Ok && !is_of_type(r, FileType::File) && !is_of_type(r, FileType::Directory),
        ),
        tally(c, results).error_count == count_of(
            results,
            |r: Result<Entry, Failure>| r is Err,
        ),
    decreases results.len(),
{
    if results.len() > 0 {
        law_results_are_counted_by_kind(c, results.drop_last());
    }
}

proof fn lemma_file_ids_push(
    results: Seq<Result<Entry, Failure>>,
)
    requires
        results.len() > 0,
    ensures
        file_ids(results) == (if is_linked_file(results.last()) {
            file_ids(results.drop_last()).insert(
                (results.last()->Ok_0.dev, results.last()->Ok_0.ino),
            )
        } else {
            file_ids(results.drop_last())
        }),
{
    let fewer = results.drop_last();
    let last = results.last();
    assert forall|id: (u64, u64)| true implies #[trigger] file_ids(results).contains(id) == (
    file_ids(fewer).contains(id) || is_file_with_id(last, id)) by {
        if file_ids(fewer).contains(id) {
            let i = choose|i: int| 0 <= i < fewer.len() && is_file_with_id(#[trigger] fewer[i], id);
            assert(results[i] == fewer[i]);
        }
        if is_file_with_id(last, id) {
            assert(results[results.len() - 1] == last);
        }
        if file_ids(results).contains(id) {
            let i = choose|i: int|
                0 <= i < results.len() && is_file_with_id(#[trigger] results[i], id);
            if i < fewer.len() {
                assert(fewer[i] == results[i]);
            }
        }
    }
    if is_linked_file(last) {
        assert(file_ids(results) =~= file_ids(fewer).insert((last->Ok_0.dev, last->Ok_0.ino)));
    } else {
        assert(file_ids(results) =~= file_ids(fewer));
    }
}

/// With hard links recognised, a file that may have other names is counted once
/// whatever their number, and every file with a single name is counted: there
/// are as many files as identities of the former, and the latter.
pub proof fn law_files_are_counted_once(c: Counting, results: Seq<Result<Entry, Failure>>)
    requires
        c.dedup_hardlinks,
    ensures
        tally(c, results).seen == file_ids(results),
        file_ids(results).finite(),
        tally(c, results).file_count == file_ids(results).len() + single_count(results),
    decreases results.len(),
{
    if results.len() == 0 {
        assert(file_ids(results) =~= Set::empty());
    } else {
        law_files_are_counted_once(c, results.drop_last());
        lemma_file_ids_push(results);
        let seen = tally(c, results.drop_last()).seen;
        if is_linked_file(results.last()) {
            let id = (results.last()->Ok_0.dev, results.last()->Ok_0.ino);
            if seen.contains(id) {
                assert(seen.insert(id) =~= seen);
            }
        }
    }
}

/// Without that, every name of a file is counted with its size.
pub proof fn law_links_are_counted_each(c: Counting, results: Seq<Result<Entry, Failure>>)
    requires
        !c.dedup_hardlinks,
    ensures
        tally(c, results).deduped_count == 0,
        tally(c, results).total_size == files_size(c, results),
    decreases results.len(),
{
    if results.len() > 0 {
        law_links_are_counted_each(c, results.drop_last());
    }
}

/// Whether all names of a file that may have several have the size that `size`
/// gives for it.
pub open spec fn sizes_agree(
    c: Counting,
    results: Seq<Result<Entry, Failure>>,
    size: spec_fn((u64, u64)) -> nat,
) -> bool {
    forall|i: int|
        0 <= i < results.len() && is_linked_file(#[trigger] results[i])
            ==> counted_size(c.size_mode, results[i]->Ok_0) == size(
            (results[i]->Ok_0.dev, results[i]->Ok_0.ino),
        )
}

/// The sum of what `size` gives for each file.
pub open spec fn sizes_of(ids: Set<(u64, u64)>, size: spec_fn((u64, u64)) -> nat) -> nat {
    ids.fold(0nat, |sum: nat, id: (u64, u64)| sum + size(id))
}

/// With hard links recognised, the total is the sum over the files, those that
/// may have several names each taken once, provided that all names of such a
/// file have the same size.
pub proof fn law_total_is_sum_over_files(
    c: Counting,
    results: Seq<Result<Entry, Failure>>,
    size: spec_fn((u64, u64)) -> nat,
)
    requires
        c.dedup_hardlinks,
        sizes_agree(c, results, size),
    ensures
        tally(c, results).total_size == sizes_of(file_ids(results), size) + single_size(c, results),
    decreases results.len(),
{
    let add_size = |sum: nat, id: (u64, u64)| sum + size(id);
    if results.len() == 0 {
        assert(file_ids(results) =~= Set::empty());
        vstd::set::fold::lemma_fold_empty(0nat, add_size);
    } else {
        let fewer = results.drop_last();
        let last = results.last();
        assert(sizes_agree(c, fewer, size)) by {
            assert forall|i: int|
                0 <= i < fewer.len() && is_linked_file(#[trigger] fewer[i]) implies counted_size(c.size_mode, fewer[i]->Ok_0) == size(
                (fewer[i]->Ok_0.dev, fewer[i]->Ok_0.ino),
            ) by {
                assert(results[i] == fewer[i]);
            }
        }
        law_total_is_sum_over_files(c, fewer, size);
        law_files_are_counted_once(c, fewer);
        lemma_file_ids_push(results);
        if is_linked_file(last) {
            let id = (last->Ok_0.dev, last->Ok_0.ino);
            assert(results[results.len() - 1] == last);
            if file_ids(fewer).contains(id) {
                assert(file_ids(fewer).insert(id) =~= file_ids(fewer));
            } else {
                assert(vstd::set::fold::is_fun_commutative(add_size));
                vstd::set::fold::lemma_fold_insert(file_ids(fewer), 0nat, add_size, id);
            }
        }
    }
}

proof fn lemma_results_total_remove(
    results: Seq<Result<Entry, Failure>>,
    i: int,
    weight: spec_fn(Result<Entry, Failure>) -> nat,
)
    requires
        0 <= i < results.len(),
    ensures
        results_total(results, weight) == results_total(results.remove(i), weight) + weight(
            results[i],
        ),
    decreases results.len(),
{
    let fewer = results.drop_last();
    if i == results.len() - 1 {
        assert(results.remove(i) =~= fewer);
    } else {
        lemma_results_total_remove(fewer, i, weight);
        assert(results.remove(i).drop_last() =~= fewer.remove(i));
        assert(results.remove(i).last() == results.last());
    }
}

proof fn lemma_found_in_both(
    a: Seq<Result<Entry, Failure>>,
    b: Seq<Result<Entry, Failure>>,
    i: int,
)
    requires
        a.to_multiset() == b.to_multiset(),
        0 <= i < a.len(),
    ensures
        b.contains(a[i]),
{
    vstd::seq_lib::to_multiset_contains(a, a[i]);
    vstd::seq_lib::to_multiset_contains(b, a[i]);
    assert(a.contains(a[i]));
}

/// A sum over the results does not depend on their order.
proof fn lemma_results_total_order(
    a: Seq<Result<Entry, Failure>>,
    b: Seq<Result<Entry, Failure>>,
    weight: spec_fn(Result<Entry, Failure>) -> nat,
)
    requires
        a.to_multiset() == b.to_multiset(),
    ensures
        results_total(a, weight) == results_total(b, weight),
    decreases a.len(),
{
    vstd::seq_lib::to_multiset_len(a);
    vstd::seq_lib::to_multiset_len(b);
    if a.len() > 0 {
        let last = a.last();
        lemma_found_in_both(a, b, a.len() - 1);
        let i = choose|i: int| 0 <= i < b.len() && b[i] == last;
        assert(a.remove(a.len() - 1) =~= a.drop_last());
        vstd::seq_lib::to_multiset_remove(a, a.len() - 1);
        vstd::seq_lib::to_multiset_remove(b, i);
        assert(a.drop_last().to_multiset() =~= b.remove(i).to_multiset());
        lemma_results_total_order(a.drop_last(), b.remove(i), weight);
        lemma_results_total_remove(b, i, weight);
    }
}

proof fn lemma_file_ids_order(
    a: Seq<Result<Entry, Failure>>,
    b: Seq<Result<Entry, Failure>>,
    id: (u64, u64),
)
    requires
        a.to_multiset() == b.to_multiset(),
        file_ids(a).contains(id),
    ensures
        file_ids(b).contains(id),
{
    let i = choose|i: int| 0 <= i < a.len() && is_file_with_id(#[trigger] a[i], id);
    lemma_found_in_both(a, b, i);
    let j = choose|j: int| 0 <= j < b.len() && b[j] == a[i];
    assert(is_file_with_id(b[j], id));
}

/// The order in which a walk hands out its results does not change the counts.
/// It does not change the total either, unless hard links are recognised and
/// the names of some file have different sizes.
pub proof fn law_order_does_not_matter(
    c: Counting,
    a: Seq<Result<Entry, Failure>>,
    b: Seq<Result<Entry, Failure>>,
    size: spec_fn((u64, u64)) -> nat,
)
    requires
        a.to_multiset() == b.to_multiset(),
    ensures
        tally(c, a).file_count == tally(c, b).file_count,
        tally(c, a).dir_count == tally(c, b).dir_count,
        tally(c, a).deduped_count == tally(c, b).deduped_count,
        tally(c, a).skipped_count == tally(c, b).skipped_count,
        tally(c, a).error_count == tally(c, b).error_count,
        !c.dedup_hardlinks || sizes_agree(c, a, size) ==> tally(c, a).total_size == tally(
            c,
            b,
        ).total_size,
{
    law_results_are_counted_by_kind(c, a);
    law_results_are_counted_by_kind(c, b);
    lemma_count_order(a, b, |r: Result<Entry, Failure>| is_of_type(r, FileType::File));
    lemma_count_order(a, b, |r: Result<Entry, Failure>| is_of_type(r, FileType::Directory));
    lemma_count_order(
        a,
        b,
        |r: Result<Entry, Failure>|
            r is Ok && !is_of_type(r, FileType::File) && !is_of_type(r, FileType::Directory),
    );
    lemma_count_order(a, b, |r: Result<Entry, Failure>| r is Err);
    lemma_count_order(a, b, |r: Result<Entry, Failure>| is_single_file(r));
    if c.dedup_hardlinks {
        law_files_are_counted_once(c, a);
        law_files_are_counted_once(c, b);
        assert forall|id: (u64, u64)| true implies #[trigger] file_ids(a).contains(id) == file_ids(
            b,
        ).contains(id) by {
            if file_ids(a).contains(id) {
                lemma_file_ids_order(a, b, id);
            }
            if file_ids(b).contains(id) {
                lemma_file_ids_order(b, a, id);
            }
        }
        assert(file_ids(a) =~= file_ids(b));
        if sizes_agree(c, a, size) {
            assert forall|i: int|
                0 <= i < b.len() && is_linked_file(#[trigger] b[i]) implies counted_size(
                c.size_mode,
                b[i]->Ok_0,
            ) == size((b[i]->Ok_0.dev, b[i]->Ok_0.ino)) by {
                lemma_found_in_both(b, a, i);
                let j = choose|j: int| 0 <= j < a.len() && a[j] == b[i];
                assert(is_linked_file(a[j]));
            }
            law_total_is_sum_over_files(c, a, size);
            law_total_is_sum_over_files(c, b, size);
            lemma_results_total_order(
                a,
                b,
                |r: Result<Entry, Failure>|
                    if is_single_file(r) {
                        counted_size(c.size_mode, r->Ok_0) as nat
                    } else {
                        0
                    },
            );
        }
    } else {
        law_links_are_counted_each(c, a);
        law_links_are_counted_each(c, b);
        lemma_results_total_order(
            a,
            b,
            |r: Result<Entry, Failure>|
                if is_of_type(r, FileType::File) {
                    counted_size(c.size_mode, r->Ok_0) as nat
                } else {
                    0
                },
        );
    }
}

proof fn lemma_count_order(
    a: Seq<Result<Entry, Failure>>,
    b: Seq<Result<Entry, Failure>>,
    property: spec_fn(Result<Entry, Failure>) -> bool,
)
    requires
        a.to_multiset() == b.to_multiset(),
    ensures
        count_of(a, property) == count_of(b, property),
{
    lemma_results_total_order(
        a,
        b,
        |r: Result<Entry, Failure>|
            if property(r) {
                1
            } else {
                0
            },
    );
}

/// Two scans of one unchanging file system agree in their counts, however many
/// workers walk it and in whatever order they do: the results that two whole
/// walks hand out are the same but for their order. Their totals agree too,
/// unless hard links are recognised and the names of some file have different
/// sizes.
pub proof fn law_scans_agree(
    c: Counting,
    rules: WalkRules,
    answers: Answers,
    roots: Seq<Seq<u8>>,
    moves: Seq<WalkMove>,
    others: Seq<WalkMove>,
    a: Seq<Result<Entry, Failure>>,
    b: Seq<Result<Entry, Failure>>,
    size: spec_fn((u64, u64)) -> nat,
)
    requires
        is_whole_walk(rules, answers, seeds(answers, roots), moves),
        is_whole_walk(rules, answers, seeds(answers, roots), others),
        a.to_multiset() == all_results(rules, answers, roots, moves),
        b.to_multiset() == all_results(rules, answers, roots, others),
    ensures
        tally(c, a).file_count == tally(c, b).file_count,
        tally(c, a).dir_count == tally(c, b).dir_count,
        tally(c, a).deduped_count == tally(c, b).deduped_count,
        tally(c, a).skipped_count == tally(c, b).skipped_count,
        tally(c, a).error_count == tally(c, b).error_count,
        !c.dedup_hardlinks || sizes_agree(c, a, size) ==> tally(c, a).total_size == tally(
            c,
            b,
        ).total_size,
{
    law_order_of_work_does_not_matter(rules, answers, seeds(answers, roots), moves, others);
    law_order_does_not_matter(c, a, b, size);
}

/// Recognising hard links makes a scan count files as repeated, and nothing
/// else: over the same results, the total with it is at most the total without,
/// the files that are repeated are those that are counted without it, and
/// directories, skipped entries and errors are the same.
pub proof fn law_dedup_only_leaves_out_files(
    on: Counting,
    off: Counting,
    results: Seq<Result<Entry, Failure>>,
)
    requires
        on.dedup_hardlinks,
        off == (Counting { dedup_hardlinks: false, ..on }),
    ensures
        tally(on, results).total_size <= tally(off, results).total_size,
        tally(off, results).deduped_count == 0,
        tally(off, results).file_count == tally(on, results).file_count + tally(
            on,
            results,
        ).deduped_count,
        tally(on, results).dir_count == tally(off, results).dir_count,
        tally(on, results).skipped_count == tally(off, results).skipped_count,
        tally(on, results).error_count == tally(off, results).error_count,
        tally(on, results).errors == tally(off, results).errors,
    decreases results.len(),
{
    if results.len() > 0 {
        law_dedup_only_leaves_out_files(on, off, results.drop_last());
    }
}

/// Whether a result is a file with the given device and inode number.
pub open spec fn has_id(result: Result<Entry, Failure>, id: (u64, u64)) -> bool {
    is_of_type(result, FileType::File) && (result->Ok_0.dev, result->Ok_0.ino) == id
}

/// The identities of all files among the results.
pub open spec fn all_ids(results: Seq<Result<Entry, Failure>>) -> Set<(u64, u64)> {
    Set::new(
        |id: (u64, u64)|
            exists|i: int| 0 <= i < results.len() && has_id(#[trigger] results[i], id),
    )
}

/// Whether every file with a single name has an identity of its own.
pub open spec fn singles_are_alone(results: Seq<Result<Entry, Failure>>) -> bool {
    forall|i: int, j: int|
        #![trigger results[i], results[j]]
        0 <= i < results.len() && 0 <= j < results.len() && i != j && is_single_file(results[i])
            ==> !has_id(results[j], (results[i]->Ok_0.dev, results[i]->Ok_0.ino))
}

/// With hard links recognised, there are as many files as identities of files,
/// provided that a file with a single name turns up once.
pub proof fn law_files_are_identities(c: Counting, results: Seq<Result<Entry, Failure>>)
    requires
        c.dedup_hardlinks,
        singles_are_alone(results),
    ensures
        all_ids(results).finite(),
        tally(c, results).file_count == all_ids(results).len(),
    decreases results.len(),
{
    if results.len() == 0 {
        assert(all_ids(results) =~= Set::empty());
    } else {
        let fewer = results.drop_last();
        let last = results.last();
        let id = (last->Ok_0.dev, last->Ok_0.ino);
        let n = results.len() - 1;
        assert(results[n] == last);
        assert forall|i: int| 0 <= i < fewer.len() implies #[trigger] fewer[i] == results[i] by {}
        assert(singles_are_alone(fewer)) by {
            assert forall|i: int, j: int|
                #![trigger fewer[i], fewer[j]]
                0 <= i < fewer.len() && 0 <= j < fewer.len() && i != j && is_single_file(
                    fewer[i],
                ) implies !has_id(fewer[j], (fewer[i]->Ok_0.dev, fewer[i]->Ok_0.ino)) by {
                assert(fewer[i] == results[i] && fewer[j] == results[j]);
            }
        }
        law_files_are_identities(c, fewer);
        law_files_are_counted_once(c, fewer);
        assert forall|x: (u64, u64)| true implies #[trigger] all_ids(results).contains(x) == (
        all_ids(fewer).contains(x) || has_id(last, x)) by {
            if all_ids(fewer).contains(x) {
                let i = choose|i: int| 0 <= i < fewer.len() && has_id(#[trigger] fewer[i], x);
                assert(has_id(results[i], x));
            }
            if has_id(last, x) {
                assert(has_id(results[n], x));
            }
            if all_ids(results).contains(x) {
                let i = choose|i: int| 0 <= i < results.len() && has_id(#[trigger] results[i], x);
                if i < n {
                    assert(has_id(fewer[i], x));
                }
            }
        }
        if is_of_type(last, FileType::File) {
            assert(all_ids(results) =~= all_ids(fewer).insert(id));
            if all_ids(fewer).contains(id) {
                let i = choose|i: int| 0 <= i < fewer.len() && has_id(#[trigger] fewer[i], id);
                assert(results[i] == fewer[i]);
                if is_single_file(last) {
                    assert(!has_id(results[i], id));
                }
                if is_single_file(results[i]) {
                    assert(!has_id(results[n], id));
                }
                assert(is_file_with_id(fewer[i], id));
                assert(file_ids(fewer).contains(id));
                assert(all_ids(fewer).insert(id) =~= all_ids(fewer));
            } else if file_ids(fewer).contains(id) {
                let i = choose|i: int|
                    0 <= i < fewer.len() && is_file_with_id(#[trigger] fewer[i], id);
                assert(has_id(fewer[i], id));
            }
        } else {
            assert(all_ids(results) =~= all_ids(fewer));
        }
    }
}

/// The sum of a number over the roots.
pub open spec fn over_roots(roots: Seq<RootTally>, number: spec_fn(RootTally) -> nat) -> nat
    decreases roots.len(),
{
    if roots.len() == 0 {
        0
    } else {
        over_roots(roots.drop_last(), number) + number(roots.last())
    }
}

proof fn lemma_over_roots_update(
    roots: Seq<RootTally>,
    k: int,
    root: RootTally,
    number: spec_fn(RootTally) -> nat,
)
    requires
        0 <= k < roots.len(),
    ensures
        over_roots(roots.update(k, root), number) + number(roots[k]) == over_roots(roots, number)
            + number(root),
    decreases roots.len(),
{
    let updated = roots.update(k, root);
    if k == roots.len() - 1 {
        assert(updated.drop_last() =~= roots.drop_last());
    } else {
        assert(updated.drop_last() =~= roots.drop_last().update(k, root));
        lemma_over_roots_update(roots.drop_last(), k, root, number);
    }
}

proof fn lemma_over_no_roots(n: nat, number: spec_fn(RootTally) -> nat)
    requires
        number(RootTally { total_size: 0, file_count: 0, dir_count: 0 }) == 0,
    ensures
        over_roots(
            Seq::new(n, |k: int| RootTally { total_size: 0, file_count: 0, dir_count: 0 }),
            number,
        ) == 0,
    decreases n,
{
    if n > 0 {
        let zero = |k: int| RootTally { total_size: 0, file_count: 0, dir_count: 0 };
        assert(Seq::new(n, zero).drop_last() =~= Seq::new((n - 1) as nat, zero));
        lemma_over_no_roots((n - 1) as nat, number);
    }
}

/// Whether every entry among the results lies below one of the roots.
pub open spec fn all_below_roots(c: Counting, results: Seq<Result<Entry, Failure>>) -> bool {
    forall|i: int|
        0 <= i < results.len() && (#[trigger] results[i]) is Ok ==> root_of(
            results[i]->Ok_0.path,
            c.roots,
        ) is Some
}

/// There are as many numbers as roots.
pub proof fn lemma_one_tally_per_root(c: Counting, results: Seq<Result<Entry, Failure>>)
    ensures
        tally(c, results).roots.len() == c.roots.len(),
    decreases results.len(),
{
    if results.len() > 0 {
        lemma_one_tally_per_root(c, results.drop_last());
        if results.last() is Ok {
            lemma_root_of(results.last()->Ok_0.path, c.roots);
        }
    }
}

/// The roots share what is counted: their numbers add up to the totals if
/// every entry lies below one of them, also where one root lies below another.
pub proof fn law_roots_add_up(c: Counting, results: Seq<Result<Entry, Failure>>)
    requires
        all_below_roots(c, results),
    ensures
        over_roots(tally(c, results).roots, |r: RootTally| r.total_size) == tally(
            c,
            results,
        ).total_size,
        over_roots(tally(c, results).roots, |r: RootTally| r.file_count) == tally(
            c,
            results,
        ).file_count,
        over_roots(tally(c, results).roots, |r: RootTally| r.dir_count) == tally(
            c,
            results,
        ).dir_count,
    decreases results.len(),
{
    let sizes = |r: RootTally| r.total_size;
    let files = |r: RootTally| r.file_count;
    let dirs = |r: RootTally| r.dir_count;
    if results.len() == 0 {
        lemma_over_no_roots(c.roots.len(), sizes);
        lemma_over_no_roots(c.roots.len(), files);
        lemma_over_no_roots(c.roots.len(), dirs);
    } else {
        let fewer = results.drop_last();
        assert(all_below_roots(c, fewer)) by {
            assert forall|i: int| 0 <= i < fewer.len() && (#[trigger] fewer[i]) is Ok implies root_of(
                fewer[i]->Ok_0.path,
                c.roots,
            ) is Some by {
                assert(results[i] == fewer[i]);
            }
        }
        law_roots_add_up(c, fewer);
        lemma_one_tally_per_root(c, fewer);
        let before = tally(c, fewer).roots;
        let after = tally(c, results).roots;
        let last = results.last();
        if is_progress(c, tally(c, fewer), last) && last is Ok {
            let path = last->Ok_0.path;
            assert(results[results.len() - 1] == last);
            lemma_root_of(path, c.roots);
            let k = root_of(path, c.roots)->Some_0;
            assert(after =~= before.update(k, after[k]));
            lemma_over_roots_update(before, k, after[k], sizes);
            lemma_over_roots_update(before, k, after[k], files);
            lemma_over_roots_update(before, k, after[k], dirs);
        }
    }
}

/// The trees and the roots agree: at the top of each tree stand the numbers of
/// files and directories that its root has.
pub proof fn law_trees_match_roots(
    result: ScanResult,
    c: Counting,
    results: Seq<Result<Entry, Failure>>,
    k: int,
)
    requires
        c.build_tree,
        is_result_of(result, c, tally(c, results)),
        0 <= k < c.roots.len(),
    ensures
        result.tree->Some_0@[k].file_count == result.roots@[k].file_count,
        result.tree->Some_0@[k].dir_count == result.roots@[k].dir_count,
        result.tree->Some_0@[k].name@ == result.roots@[k].path@,
{
    lemma_root_counts(c, results, k);
    let root = result.roots@[k];
    assert(root_tallies(result.roots@)[k] == RootTally {
        total_size: root.total_size as nat,
        file_count: root.file_count as nat,
        dir_count: root.dir_count as nat,
    });
}

proof fn lemma_root_counts(c: Counting, results: Seq<Result<Entry, Failure>>, k: int)
    requires
        c.build_tree,
        0 <= k < c.roots.len(),
    ensures
        file_records(root_records(tally(c, results).records, c.roots, k)) == tally(
            c,
            results,
        ).roots[k].file_count,
        dir_records(root_records(tally(c, results).records, c.roots, k)) == tally(
            c,
            results,
        ).roots[k].dir_count,
    decreases results.len(),
{
    if results.len() == 0 {
        reveal(Seq::filter);
        assert(root_records(Seq::<Record>::empty(), c.roots, k) =~= Seq::<Record>::empty());
    } else {
        let fewer = results.drop_last();
        lemma_root_counts(c, fewer, k);
        lemma_one_tally_per_root(c, fewer);
        let before = tally(c, fewer).records;
        let after = tally(c, results).records;
        if results.last() is Ok && is_progress(c, tally(c, fewer), results.last()) {
            let e = results.last()->Ok_0;
            let record = record_of(e, e.file_type == FileType::Directory);
            lemma_root_of(e.path, c.roots);
            lemma_root_records_push(before, record, c.roots, k);
            let seen = Record { rest: relative(record.rest, c.roots[k]), ..record };
            let below = root_records(before, c.roots, k);
            assert(below.push(seen).drop_last() =~= below);
            assert(after == before.push(record));
        }
    }
}

} // verus!
