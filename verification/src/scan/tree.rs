//! The tree of what a scan has found, with the totals of every directory.
use crate::bytes::{before, copy_bytes, find_byte, first_position};
use crate::paths::{byte_strings, find_root, has_prefix, root_of, SLASH};
use crate::scan::names::NameTable;
use crate::seqs::lemma_filter_push;
use crate::walk::entry::{depth_below, next_depth};
use vstd::prelude::*;

verus! {

/// A file or a directory, with the totals of all that lies at or below it.
#[derive(Debug)]
pub struct TreeNode {
    pub name: Vec<u8>,
    pub apparent_size: u64,
    pub disk_usage: u64,
    pub file_count: u64,
    pub dir_count: u64,
    pub children: Vec<TreeNode>,
    pub is_dir: bool,
    pub depth: u16,
}

/// One entry that a tree is built from. The path up to `start` is known from
/// the place in the tree; what follows leads further down.
#[derive(Debug)]
pub struct TreeRecord {
    pub path: Vec<u8>,
    pub start: usize,
    pub apparent_size: u64,
    pub disk_usage: u64,
    pub is_dir: bool,
    pub depth: u16,
}

/// What a [`TreeRecord`] says: the rest of its path, and its numbers.
#[verifier::ext_equal]
pub struct Record {
    pub rest: Seq<u8>,
    pub apparent_size: u64,
    pub disk_usage: u64,
    pub is_dir: bool,
    pub depth: u16,
}

impl View for TreeRecord {
    type V = Record;

    open spec fn view(&self) -> Record {
        Record {
            rest: self.path@.skip(self.start as int),
            apparent_size: self.apparent_size,
            disk_usage: self.disk_usage,
            is_dir: self.is_dir,
            depth: self.depth,
        }
    }
}

impl TreeRecord {
    pub open spec fn wf(&self) -> bool {
        self.start <= self.path@.len()
    }
}

/// What a vector of records says.
pub open spec fn records(list: Seq<TreeRecord>) -> Seq<Record> {
    list.map_values(|r: TreeRecord| r@)
}

/// The first component of a path.
pub open spec fn head(path: Seq<u8>) -> Seq<u8> {
    before(path, SLASH)
}

/// What follows the first component of a path, and its slash.
pub open spec fn tail(path: Seq<u8>) -> Seq<u8> {
    if first_position(path, SLASH) < path.len() {
        path.skip(first_position(path, SLASH) + 1)
    } else {
        Seq::empty()
    }
}

/// Whether a record leads to the child `name` or below it.
pub open spec fn leads_to(r: Record, name: Seq<u8>) -> bool {
    r.rest.len() > 0 && head(r.rest) == name
}

/// A record as seen from the child that it leads to.
pub open spec fn step_down(r: Record) -> Record {
    Record { rest: tail(r.rest), ..r }
}

/// The records of the child `name`, as seen from there.
pub open spec fn child_records(recs: Seq<Record>, name: Seq<u8>) -> Seq<Record> {
    recs.filter(|r: Record| leads_to(r, name)).map_values(|r: Record| step_down(r))
}

/// The names of the children that the records lead to, in the order in which
/// they first occur.
pub open spec fn child_names(recs: Seq<Record>) -> Seq<Seq<u8>>
    decreases recs.len(),
{
    if recs.len() == 0 {
        Seq::empty()
    } else {
        let names = child_names(recs.drop_last());
        let last = recs.last();
        if last.rest.len() == 0 || names.contains(head(last.rest)) {
            names
        } else {
            names.push(head(last.rest))
        }
    }
}

/// The last record that stands for the place itself.
pub open spec fn own_record(recs: Seq<Record>) -> Option<Record>
    decreases recs.len(),
{
    if recs.len() == 0 {
        None
    } else if recs.last().rest.len() == 0 {
        Some(recs.last())
    } else {
        own_record(recs.drop_last())
    }
}

/// The sum of what a weight gives to each record.
pub open spec fn total(recs: Seq<Record>, weight: spec_fn(Record) -> nat) -> nat
    decreases recs.len(),
{
    if recs.len() == 0 {
        0
    } else {
        total(recs.drop_last(), weight) + weight(recs.last())
    }
}

/// The sum of the apparent sizes of the records.
pub open spec fn apparent_sum(recs: Seq<Record>) -> nat {
    total(recs, |r: Record| r.apparent_size as nat)
}

/// The sum of the disk usage of the records.
pub open spec fn disk_sum(recs: Seq<Record>) -> nat {
    total(recs, |r: Record| r.disk_usage as nat)
}

/// The number of records that stand for directories.
pub open spec fn dir_records(recs: Seq<Record>) -> nat {
    total(
        recs,
        |r: Record|
            if r.is_dir {
                1
            } else {
                0
            },
    )
}

/// The number of records that stand for anything else.
pub open spec fn file_records(recs: Seq<Record>) -> nat {
    total(
        recs,
        |r: Record|
            if r.is_dir {
                0
            } else {
                1
            },
    )
}

/// Whether `node` is the tree of the records at a place called `name`. Where no
/// record stands for the place itself, `dir` and `depth` describe it.
pub open spec fn is_tree_of(
    node: TreeNode,
    name: Seq<u8>,
    dir: bool,
    depth: u16,
    recs: Seq<Record>,
) -> bool
    decreases node,
{
    let own = own_record(recs);
    let names = child_names(recs);
    &&& node.name@ == name
    &&& node.apparent_size == apparent_sum(recs)
    &&& node.disk_usage == disk_sum(recs)
    &&& node.file_count == file_records(recs)
    &&& node.dir_count == dir_records(recs)
    &&& node.is_dir == (dir || names.len() > 0 || (own is Some && own->Some_0.is_dir))
    &&& node.depth == (match own {
        Some(r) => r.depth,
        None => depth,
    })
    &&& node.children@.len() == names.len()
    &&& forall|i: int|
        0 <= i < node.children@.len() ==> is_tree_of(
            #[trigger] node.children@[i],
            names[i],
            false,
            depth_below(node.depth),
            child_records(recs, names[i]),
        )
}

pub(crate) proof fn lemma_child_records_push(recs: Seq<Record>, r: Record, name: Seq<u8>)
    ensures
        child_records(recs.push(r), name) == (if leads_to(r, name) {
            child_records(recs, name).push(step_down(r))
        } else {
            child_records(recs, name)
        }),
{
    lemma_filter_push(recs, r, |r: Record| leads_to(r, name));
    let kept = recs.filter(|r: Record| leads_to(r, name));
    assert(kept.push(r).map_values(|r: Record| step_down(r)) =~= kept.map_values(
        |r: Record| step_down(r),
    ).push(step_down(r)));
}

/// A name that no record leads to has no records.
pub(crate) proof fn lemma_unnamed_child(recs: Seq<Record>, name: Seq<u8>)
    requires
        !child_names(recs).contains(name),
    ensures
        child_records(recs, name) == Seq::<Record>::empty(),
    decreases recs.len(),
{
    if recs.len() == 0 {
        reveal(Seq::filter);
        assert(child_records(recs, name) =~= Seq::<Record>::empty());
    } else {
        let fewer = recs.drop_last();
        let names = child_names(fewer);
        assert(recs =~= fewer.push(recs.last()));
        let h = head(recs.last().rest);
        assert(names.push(h)[names.len() as int] == h);
        assert forall|i: int| 0 <= i < names.len() implies names.push(h)[i] == names[i] by {}
        if names.contains(name) {
            let i = choose|i: int| 0 <= i < names.len() && names[i] == name;
            assert(names.push(h)[i] == name);
        }
        lemma_unnamed_child(fewer, name);
        lemma_child_records_push(fewer, recs.last(), name);
    }
}

/// Sorts records by the child that they lead to.
fn split_records(list: Vec<TreeRecord>) -> (split: (Vec<Vec<u8>>, Vec<Vec<TreeRecord>>))
    requires
        forall|i: int| 0 <= i < list@.len() ==> (#[trigger] list@[i]).wf(),
    ensures
        byte_strings(split.0@) == child_names(records(list@)),
        split.1@.len() == split.0@.len(),
        forall|i: int|
            0 <= i < split.1@.len() ==> {
                &&& records((#[trigger] split.1@[i])@) == child_records(
                    records(list@),
                    split.0@[i]@,
                )
                &&& forall|j: int| 0 <= j < split.1@[i]@.len() ==> (#[trigger] split.1@[i]@[j]).wf()
            },
{
    let ghost all = list@;
    let mut table = NameTable::new();
    let mut groups: Vec<Vec<TreeRecord>> = Vec::new();
    assert(records(all.take(0)) =~= Seq::<Record>::empty());
    for r in iter: list
        invariant
            iter.seq() == all,
            forall|i: int| 0 <= i < all.len() ==> (#[trigger] all[i]).wf(),
            table.wf(),
            table@ == child_names(records(all.take(iter.index() as int))),
            groups@.len() == table@.len(),
            forall|i: int|
                0 <= i < groups@.len() ==> {
                    &&& records((#[trigger] groups@[i])@) == child_records(
                        records(all.take(iter.index() as int)),
                        table@[i],
                    )
                    &&& forall|j: int|
                        0 <= j < groups@[i]@.len() ==> (#[trigger] groups@[i]@[j]).wf()
                },
    {
        let ghost k = iter.index() as int;
        let ghost done = records(all.take(k));
        let ghost groups0 = groups@;
        proof {
            assert(all[k] == r);
            assert(records(all.take(k + 1)) =~= done.push(r@));
            assert(done.push(r@).drop_last() =~= done);
            assert forall|name: Seq<u8>| true implies #[trigger] child_records(
                done.push(r@),
                name,
            ) == (if leads_to(r@, name) {
                child_records(done, name).push(step_down(r@))
            } else {
                child_records(done, name)
            }) by {
                lemma_child_records_push(done, r@, name);
            }
        }
        if r.start < r.path.len() {
            let ghost view = r@;
            let rest = vstd::slice::slice_subrange(r.path.as_slice(), r.start, r.path.len());
            assert(rest@ =~= view.rest);
            let len: usize = find_byte(rest, SLASH);
            let name = vstd::slice::slice_subrange(rest, 0, len);
            assert(name@ =~= head(view.rest));
            let start: usize = if len < rest.len() {
                r.start + len + 1
            } else {
                r.path.len()
            };
            let i: usize = match table.find(name) {
                Some(i) => i,
                None => {
                    let ghost names0 = table@;
                    let i: usize = groups.len();
                    table.add_name(copy_bytes(name));
                    let group: Vec<TreeRecord> = Vec::new();
                    groups.push(group);
                    proof {
                        lemma_unnamed_child(done, head(view.rest));
                        assert(records(group@) =~= Seq::<Record>::empty());
                        assert forall|l: int| 0 <= l < groups@.len() implies {
                            &&& records((#[trigger] groups@[l])@) == child_records(
                                done,
                                table@[l],
                            )
                            &&& forall|j: int|
                                0 <= j < groups@[l]@.len() ==> (#[trigger] groups@[l]@[j]).wf()
                        } by {
                            if l < groups0.len() {
                                assert(groups@[l] == groups0[l]);
                                assert(table@[l] == names0[l]);
                                assert(records(groups0[l]@) == child_records(done, names0[l]));
                            }
                        }
                    }
                    i
                },
            };
            let lower = TreeRecord {
                path: r.path,
                start,
                apparent_size: r.apparent_size,
                disk_usage: r.disk_usage,
                is_dir: r.is_dir,
                depth: r.depth,
            };
            assert(lower@.rest =~= tail(view.rest));
            assert(lower@ == step_down(view));
            let ghost groups1 = groups@;
            groups[i].push(lower);
            proof {
                let group = groups1[i as int]@;
                assert(records(groups@[i as int]@) =~= records(group).push(lower@));
                assert forall|l: int| 0 <= l < groups@.len() implies {
                    &&& records((#[trigger] groups@[l])@) == child_records(
                        done.push(view),
                        table@[l],
                    )
                    &&& forall|j: int|
                        0 <= j < groups@[l]@.len() ==> (#[trigger] groups@[l]@[j]).wf()
                } by {
                    assert(records(groups1[l]@) == child_records(done, table@[l]));
                    if l != i {
                        assert(table@[l] != table@[i as int]);
                        assert(groups@[l] == groups1[l]);
                    } else {
                        assert forall|j: int| 0 <= j < groups@[l]@.len() implies (
                        #[trigger] groups@[l]@[j]).wf() by {
                            if j < group.len() {
                                assert(groups1[l]@[j].wf());
                            }
                        }
                    }
                }
            }
        } else {
            assert(r@.rest =~= Seq::<u8>::empty());
            assert forall|l: int| 0 <= l < groups@.len() implies records(
                (#[trigger] groups@[l])@,
            ) == child_records(done.push(r@), table@[l]) by {
                assert(records(groups0[l]@) == child_records(done, table@[l]));
            }
        }
    }
    assert(all.take(all.len() as int) =~= all);
    assert forall|i: int| 0 <= i < groups@.len() implies table@[i] == table.names@[i]@ by {}
    (table.names, groups)
}

/// The length of the longest path that a record still has to go.
spec fn longest(recs: Seq<Record>) -> nat
    decreases recs.len(),
{
    if recs.len() == 0 {
        0
    } else {
        let before = longest(recs.drop_last());
        if recs.last().rest.len() > before {
            recs.last().rest.len()
        } else {
            before
        }
    }
}

proof fn lemma_longest_push(recs: Seq<Record>, r: Record)
    ensures
        longest(recs) <= longest(recs.push(r)),
        r.rest.len() <= longest(recs.push(r)),
        longest(recs.push(r)) == longest(recs) || longest(recs.push(r)) == r.rest.len(),
{
    assert(recs.push(r).drop_last() =~= recs);
}

/// What the records of one child say of all records: their paths are shorter,
/// and their sums no larger.
proof fn lemma_child_is_smaller(recs: Seq<Record>, name: Seq<u8>)
    ensures
        child_records(recs, name).len() == 0 || longest(child_records(recs, name)) < longest(recs),
        apparent_sum(child_records(recs, name)) <= apparent_sum(recs),
        disk_sum(child_records(recs, name)) <= disk_sum(recs),
    decreases recs.len(),
{
    let below = child_records(recs, name);
    if recs.len() == 0 {
        reveal(Seq::filter);
        assert(below =~= Seq::<Record>::empty());
    } else {
        let fewer = recs.drop_last();
        let last = recs.last();
        assert(recs =~= fewer.push(last));
        lemma_child_is_smaller(fewer, name);
        lemma_child_records_push(fewer, last, name);
        lemma_longest_push(fewer, last);
        if leads_to(last, name) {
            let b = child_records(fewer, name);
            lemma_longest_push(b, step_down(last));
            crate::bytes::lemma_first_position(last.rest, SLASH);
            assert(tail(last.rest).len() < last.rest.len());
            assert(b.push(step_down(last)).drop_last() =~= b);
            if b.len() == 0 {
                assert(longest(b) == 0);
            }
        }
    }
}

/// The children that are named have records.
pub(crate) proof fn lemma_named_child(recs: Seq<Record>, name: Seq<u8>)
    requires
        child_names(recs).contains(name),
    ensures
        child_records(recs, name).len() > 0,
    decreases recs.len(),
{
    let fewer = recs.drop_last();
    let last = recs.last();
    let names = child_names(fewer);
    assert(recs =~= fewer.push(last));
    lemma_child_records_push(fewer, last, name);
    if names.contains(name) {
        lemma_named_child(fewer, name);
    } else {
        let i = choose|i: int| 0 <= i < child_names(recs).len() && child_names(recs)[i] == name;
        assert(i == names.len()) by {
            if i < names.len() {
                assert(names[i] == name);
            }
        }
    }
}

/// What a list of records comes to.
struct Totals {
    apparent_size: u64,
    disk_usage: u64,
    file_count: u64,
    dir_count: u64,
    /// Whether the last record for the place itself is a directory, and its
    /// depth.
    own: Option<(bool, u16)>,
}

fn add_up(list: &Vec<TreeRecord>) -> (totals: Totals)
    requires
        forall|i: int| 0 <= i < list@.len() ==> (#[trigger] list@[i]).wf(),
        apparent_sum(records(list@)) <= u64::MAX,
        disk_sum(records(list@)) <= u64::MAX,
    ensures
        totals.apparent_size == apparent_sum(records(list@)),
        totals.disk_usage == disk_sum(records(list@)),
        totals.file_count == file_records(records(list@)),
        totals.dir_count == dir_records(records(list@)),
        totals.own == (match own_record(records(list@)) {
            Some(r) => Some((r.is_dir, r.depth)),
            None => None,
        }),
{
    let ghost all = records(list@);
    let mut totals = Totals {
        apparent_size: 0,
        disk_usage: 0,
        file_count: 0,
        dir_count: 0,
        own: None,
    };
    let mut i: usize = 0;
    assert(all.take(0) =~= Seq::<Record>::empty());
    while i < list.len()
        invariant
            i <= list@.len(),
            all == records(list@),
            forall|i: int| 0 <= i < list@.len() ==> (#[trigger] list@[i]).wf(),
            apparent_sum(all) <= u64::MAX,
            disk_sum(all) <= u64::MAX,
            totals.apparent_size == apparent_sum(all.take(i as int)),
            totals.disk_usage == disk_sum(all.take(i as int)),
            totals.file_count == file_records(all.take(i as int)),
            totals.dir_count == dir_records(all.take(i as int)),
            totals.file_count <= i,
            totals.dir_count <= i,
            totals.own == (match own_record(all.take(i as int)) {
                Some(r) => Some((r.is_dir, r.depth)),
                None => None,
            }),
        decreases list@.len() - i,
    {
        let r = &list[i];
        proof {
            let done = all.take(i as int);
            assert(all.take(i + 1) =~= done.push(r@));
            assert(done.push(r@).drop_last() =~= done);
            lemma_total_grows(all, i + 1, |r: Record| r.apparent_size as nat);
            lemma_total_grows(all, i + 1, |r: Record| r.disk_usage as nat);
        }
        totals.apparent_size = totals.apparent_size + r.apparent_size;
        totals.disk_usage = totals.disk_usage + r.disk_usage;
        if r.is_dir {
            totals.dir_count = totals.dir_count + 1;
        } else {
            totals.file_count = totals.file_count + 1;
        }
        if r.start == r.path.len() {
            totals.own = Some((r.is_dir, r.depth));
        }
        i = i + 1;
    }
    assert(all.take(i as int) =~= all);
    totals
}

proof fn lemma_total_grows(recs: Seq<Record>, k: int, weight: spec_fn(Record) -> nat)
    requires
        0 <= k <= recs.len(),
    ensures
        total(recs.take(k), weight) <= total(recs, weight),
    decreases recs.len(),
{
    if k == recs.len() {
        assert(recs.take(k) =~= recs);
    } else {
        assert(recs.drop_last().take(k) =~= recs.take(k));
        lemma_total_grows(recs.drop_last(), k, weight);
    }
}

/// Builds the tree of the records at a place called `name`.
fn build_node(name: Vec<u8>, dir: bool, depth: u16, list: Vec<TreeRecord>) -> (node: TreeNode)
    requires
        forall|i: int| 0 <= i < list@.len() ==> (#[trigger] list@[i]).wf(),
        apparent_sum(records(list@)) <= u64::MAX,
        disk_sum(records(list@)) <= u64::MAX,
    ensures
        is_tree_of(node, name@, dir, depth, records(list@)),
    decreases longest(records(list@)),
{
    let ghost recs = records(list@);
    let totals = add_up(&list);
    let own_dir = match totals.own {
        Some((is_dir, _)) => is_dir,
        None => false,
    };
    let own_depth: u16 = match totals.own {
        Some((_, own_depth)) => own_depth,
        None => depth,
    };
    let (names, groups) = split_records(list);
    let ghost all_names = names@;
    let ghost all_groups = groups@;
    let below: u16 = next_depth(own_depth);
    let is_dir = dir || own_dir || names.len() > 0;
    let mut children: Vec<TreeNode> = Vec::new();
    for group in iter: groups
        invariant
            iter.seq() == all_groups,
            recs == records(list@),
            apparent_sum(recs) <= u64::MAX,
            disk_sum(recs) <= u64::MAX,
            byte_strings(all_names) == child_names(recs),
            all_groups.len() == all_names.len(),
            forall|i: int|
                0 <= i < all_groups.len() ==> {
                    &&& records((#[trigger] all_groups[i])@) == child_records(
                        recs,
                        all_names[i]@,
                    )
                    &&& forall|j: int|
                        0 <= j < all_groups[i]@.len() ==> (#[trigger] all_groups[i]@[j]).wf()
                },
            names@ == all_names,
            children@.len() == iter.index(),
            forall|i: int|
                0 <= i < children@.len() ==> is_tree_of(
                    #[trigger] children@[i],
                    byte_strings(all_names)[i],
                    false,
                    below,
                    child_records(recs, byte_strings(all_names)[i]),
                ),
    {
        let k: usize = children.len();
        let child_name: Vec<u8> = copy_bytes(names[k].as_slice());
        proof {
            assert(all_groups[k as int] == group);
            assert(byte_strings(all_names)[k as int] == child_name@);
            assert(child_names(recs).contains(child_name@));
            lemma_named_child(recs, child_name@);
            lemma_child_is_smaller(recs, child_name@);
        }
        children.push(build_node(child_name, false, below, group));
    }
    TreeNode {
        name,
        apparent_size: totals.apparent_size,
        disk_usage: totals.disk_usage,
        file_count: totals.file_count,
        dir_count: totals.dir_count,
        children,
        is_dir,
        depth: own_depth,
    }
}

/// The path of `path` from `root` on, without the slash between them.
pub open spec fn relative(path: Seq<u8>, root: Seq<u8>) -> Seq<u8> {
    let rest = path.skip(root.len() as int);
    if root.len() > 0 && root.last() != SLASH && rest.len() > 0 && rest[0] == SLASH {
        rest.skip(1)
    } else {
        rest
    }
}

/// The records that are counted under the root at `k`, as seen from there.
pub open spec fn root_records(recs: Seq<Record>, roots: Seq<Seq<u8>>, k: int) -> Seq<Record> {
    recs.filter(|r: Record| root_of(r.rest, roots) == Some(k)).map_values(
        |r: Record| Record { rest: relative(r.rest, roots[k]), ..r },
    )
}

pub(crate) proof fn lemma_root_records_push(recs: Seq<Record>, r: Record, roots: Seq<Seq<u8>>, k: int)
    ensures
        root_records(recs.push(r), roots, k) == (if root_of(r.rest, roots) == Some(k) {
            root_records(recs, roots, k).push(Record { rest: relative(r.rest, roots[k]), ..r })
        } else {
            root_records(recs, roots, k)
        }),
{
    lemma_filter_push(recs, r, |r: Record| root_of(r.rest, roots) == Some(k));
    let kept = recs.filter(|r: Record| root_of(r.rest, roots) == Some(k));
    let seen = |r: Record| Record { rest: relative(r.rest, roots[k]), ..r };
    assert(kept.push(r).map_values(seen) =~= kept.map_values(seen).push(seen(r)));
}

proof fn lemma_root_sums(recs: Seq<Record>, roots: Seq<Seq<u8>>, k: int)
    ensures
        apparent_sum(root_records(recs, roots, k)) <= apparent_sum(recs),
        disk_sum(root_records(recs, roots, k)) <= disk_sum(recs),
    decreases recs.len(),
{
    if recs.len() == 0 {
        reveal(Seq::filter);
        assert(root_records(recs, roots, k) =~= Seq::<Record>::empty());
    } else {
        let fewer = recs.drop_last();
        let last = recs.last();
        assert(recs =~= fewer.push(last));
        lemma_root_sums(fewer, roots, k);
        lemma_root_records_push(fewer, last, roots, k);
        let below = root_records(fewer, roots, k);
        let seen = Record { rest: relative(last.rest, roots[k]), ..last };
        assert(below.push(seen).drop_last() =~= below);
    }
}

/// Collects entries, and builds the trees of the roots from them.
#[derive(Debug)]
pub struct TreeBuilder {
    pub list: Vec<TreeRecord>,
    pub apparent_total: u64,
    pub disk_total: u64,
}

impl View for TreeBuilder {
    type V = Seq<Record>;

    open spec fn view(&self) -> Seq<Record> {
        records(self.list@)
    }
}

impl TreeBuilder {
    /// The records carry whole paths, and the totals are theirs.
    pub open spec fn wf(&self) -> bool {
        &&& forall|i: int| 0 <= i < self.list@.len() ==> (#[trigger] self.list@[i]).start == 0
        &&& self.apparent_total == apparent_sum(self@)
        &&& self.disk_total == disk_sum(self@)
    }

    /// Whether the totals can grow by these sizes.
    pub open spec fn has_room(&self, apparent_size: u64, disk_usage: u64) -> bool {
        &&& self.apparent_total + apparent_size <= u64::MAX
        &&& self.disk_total + disk_usage <= u64::MAX
    }

    pub fn new() -> (builder: Self)
        ensures
            builder.wf(),
            builder@ == Seq::<Record>::empty(),
    {
        let builder = TreeBuilder { list: Vec::new(), apparent_total: 0, disk_total: 0 };
        assert(builder@ =~= Seq::<Record>::empty());
        builder
    }

    /// Whether the totals can grow by these sizes.
    pub fn fits(&self, apparent_size: u64, disk_usage: u64) -> (fits: bool)
        ensures
            fits == self.has_room(apparent_size, disk_usage),
    {
        apparent_size <= u64::MAX - self.apparent_total && disk_usage <= u64::MAX
            - self.disk_total
    }

    /// Adds an entry.
    pub fn insert(
        &mut self,
        path: &[u8],
        apparent_size: u64,
        disk_usage: u64,
        is_dir: bool,
        depth: u16,
    )
        requires
            old(self).wf(),
            old(self).has_room(apparent_size, disk_usage),
        ensures
            final(self).wf(),
            final(self)@ == old(self)@.push(
                Record { rest: path@, apparent_size, disk_usage, is_dir, depth },
            ),
    {
        let record = TreeRecord {
            path: copy_bytes(path),
            start: 0,
            apparent_size,
            disk_usage,
            is_dir,
            depth,
        };
        assert(record@.rest =~= path@);
        self.list.push(record);
        self.apparent_total = self.apparent_total + apparent_size;
        self.disk_total = self.disk_total + disk_usage;
        assert(self@ =~= old(self)@.push(record@));
        assert(old(self)@.push(record@).drop_last() =~= old(self)@);
    }

    /// Builds one tree for each root. An entry goes to the first root that it
    /// lies below; the directories on its way are there even if no entry was
    /// added for them.
    pub fn build(self, roots: &Vec<Vec<u8>>) -> (trees: Vec<TreeNode>)
        requires
            self.wf(),
        ensures
            trees@.len() == roots@.len(),
            forall|k: int|
                0 <= k < trees@.len() ==> is_tree_of(
                    #[trigger] trees@[k],
                    roots@[k]@,
                    true,
                    0,
                    root_records(self@, byte_strings(roots@), k),
                ),
    {
        let ghost all = self.list@;
        let ghost paths = byte_strings(roots@);
        let mut groups: Vec<Vec<TreeRecord>> = Vec::new();
        proof {
            reveal(Seq::filter);
        }
        while groups.len() < roots.len()
            invariant
                paths == byte_strings(roots@),
                groups@.len() <= roots@.len(),
                forall|k: int| 0 <= k < groups@.len() ==> (#[trigger] groups@[k])@.len() == 0,
            decreases roots@.len() - groups@.len(),
        {
            groups.push(Vec::new());
        }
        proof {
            assert(records(all.take(0)) =~= Seq::<Record>::empty());
            assert forall|k: int| 0 <= k < groups@.len() implies records((#[trigger] groups@[k])@)
                == root_records(records(all.take(0)), paths, k) by {
                reveal(Seq::filter);
                assert(records(groups@[k]@) =~= Seq::<Record>::empty());
                assert(root_records(records(all.take(0)), paths, k) =~= Seq::<Record>::empty());
            }
        }
        for r in iter: self.list
            invariant
                iter.seq() == all,
                paths == byte_strings(roots@),
                forall|i: int| 0 <= i < all.len() ==> (#[trigger] all[i]).start == 0,
                groups@.len() == roots@.len(),
                forall|k: int|
                    0 <= k < groups@.len() ==> {
                        &&& records((#[trigger] groups@[k])@) == root_records(
                            records(all.take(iter.index() as int)),
                            paths,
                            k,
                        )
                        &&& forall|j: int|
                            0 <= j < groups@[k]@.len() ==> (#[trigger] groups@[k]@[j]).wf()
                    },
        {
            let ghost n = iter.index() as int;
            let ghost done = records(all.take(n));
            let ghost groups0 = groups@;
            let ghost view = r@;
            proof {
                assert(all[n] == r);
                assert(view.rest =~= r.path@);
                assert(records(all.take(n + 1)) =~= done.push(view));
                assert forall|k: int| true implies #[trigger] root_records(
                    done.push(view),
                    paths,
                    k,
                ) == (if root_of(view.rest, paths) == Some(k) {
                    root_records(done, paths, k).push(
                        Record { rest: relative(view.rest, paths[k]), ..view },
                    )
                } else {
                    root_records(done, paths, k)
                }) by {
                    lemma_root_records_push(done, view, paths, k);
                }
                crate::paths::lemma_root_of(view.rest, paths);
            }
            match find_root(r.path.as_slice(), roots) {
                Some(k) => {
                    let root_len: usize = roots[k].len();
                    assert(has_prefix(view.rest, paths[k as int]));
                    let start: usize = if root_len > 0 && roots[k][root_len - 1] != SLASH
                        && root_len < r.path.len() && r.path[root_len] == SLASH {
                        root_len + 1
                    } else {
                        root_len
                    };
                    let lower = TreeRecord {
                        path: r.path,
                        start,
                        apparent_size: r.apparent_size,
                        disk_usage: r.disk_usage,
                        is_dir: r.is_dir,
                        depth: r.depth,
                    };
                    assert(lower@.rest =~= relative(view.rest, paths[k as int]));
                    groups[k].push(lower);
                    proof {
                        let group = groups0[k as int]@;
                        assert(records(groups@[k as int]@) =~= records(group).push(lower@));
                        assert forall|l: int| 0 <= l < groups@.len() implies {
                            &&& records((#[trigger] groups@[l])@) == root_records(
                                done.push(view),
                                paths,
                                l,
                            )
                            &&& forall|j: int|
                                0 <= j < groups@[l]@.len() ==> (#[trigger] groups@[l]@[j]).wf()
                        } by {
                            assert(records(groups0[l]@) == root_records(done, paths, l));
                            if l == k {
                                assert forall|j: int| 0 <= j < groups@[l]@.len() implies (
                                #[trigger] groups@[l]@[j]).wf() by {
                                    if j < group.len() {
                                        assert(groups0[l]@[j].wf());
                                    }
                                }
                            }
                        }
                    }
                },
                None => {
                    assert forall|l: int| 0 <= l < groups@.len() implies records(
                        (#[trigger] groups@[l])@,
                    ) == root_records(done.push(view), paths, l) by {
                        assert(records(groups0[l]@) == root_records(done, paths, l));
                    }
                },
            }
        }
        assert(all.take(all.len() as int) =~= all);
        let ghost all_groups = groups@;
        let mut trees: Vec<TreeNode> = Vec::new();
        for group in iter: groups
            invariant
                iter.seq() == all_groups,
                all_groups.len() == roots@.len(),
                paths == byte_strings(roots@),
                apparent_sum(records(all)) <= u64::MAX,
                disk_sum(records(all)) <= u64::MAX,
                forall|k: int|
                    0 <= k < all_groups.len() ==> {
                        &&& records((#[trigger] all_groups[k])@) == root_records(
                            records(all),
                            paths,
                            k,
                        )
                        &&& forall|j: int|
                            0 <= j < all_groups[k]@.len() ==> (#[trigger] all_groups[k]@[j]).wf()
                    },
                trees@.len() == iter.index(),
                forall|k: int|
                    0 <= k < trees@.len() ==> is_tree_of(
                        #[trigger] trees@[k],
                        roots@[k]@,
                        true,
                        0,
                        root_records(records(all), paths, k),
                    ),
        {
            let k: usize = trees.len();
            proof {
                assert(all_groups[k as int] == group);
                lemma_root_sums(records(all), paths, k as int);
            }
            trees.push(build_node(copy_bytes(roots[k].as_slice()), true, 0, group));
        }
        trees
    }
}

impl Default for TreeBuilder {
    fn default() -> (builder: Self)
        ensures
            builder.wf(),
            builder@ == Seq::<Record>::empty(),
    {
        TreeBuilder::new()
    }
}

/// Whether a weight does not look at the path of a record.
pub open spec fn ignores_path(weight: spec_fn(Record) -> nat) -> bool {
    forall|a: Record, b: Record|
        #![trigger weight(a), weight(b)]
        a.apparent_size == b.apparent_size && a.disk_usage == b.disk_usage && a.is_dir == b.is_dir
            && a.depth == b.depth ==> weight(a) == weight(b)
}

/// The records that stand for the place itself.
pub open spec fn own_records(recs: Seq<Record>) -> Seq<Record> {
    recs.filter(|r: Record| r.rest.len() == 0)
}

/// The sum of what the first `n` children have.
pub open spec fn children_total(
    recs: Seq<Record>,
    names: Seq<Seq<u8>>,
    n: int,
    weight: spec_fn(Record) -> nat,
) -> nat
    decreases n,
{
    if n <= 0 {
        0
    } else {
        children_total(recs, names, n - 1, weight) + total(
            child_records(recs, names[n - 1]),
            weight,
        )
    }
}

pub(crate) proof fn lemma_total_push(recs: Seq<Record>, r: Record, weight: spec_fn(Record) -> nat)
    ensures
        total(recs.push(r), weight) == total(recs, weight) + weight(r),
{
    assert(recs.push(r).drop_last() =~= recs);
}

pub(crate) proof fn lemma_names_distinct(recs: Seq<Record>)
    ensures
        child_names(recs).no_duplicates(),
    decreases recs.len(),
{
    if recs.len() > 0 {
        lemma_names_distinct(recs.drop_last());
    }
}

proof fn lemma_children_total_push(
    recs: Seq<Record>,
    r: Record,
    names: Seq<Seq<u8>>,
    n: int,
    weight: spec_fn(Record) -> nat,
)
    requires
        ignores_path(weight),
        names.no_duplicates(),
        0 <= n <= names.len(),
    ensures
        children_total(recs.push(r), names, n, weight) == children_total(recs, names, n, weight)
            + (if r.rest.len() > 0 && names.take(n).contains(head(r.rest)) {
            weight(r)
        } else {
            0
        }),
    decreases n,
{
    if n > 0 {
        lemma_children_total_push(recs, r, names, n - 1, weight);
        lemma_child_records_push(recs, r, names[n - 1]);
        assert(weight(step_down(r)) == weight(r));
        lemma_total_push(child_records(recs, names[n - 1]), step_down(r), weight);
        let h = head(r.rest);
        let fewer = names.take(n - 1);
        if names[n - 1] == h {
            assert(names.take(n)[n - 1] == h);
            if fewer.contains(h) {
                let i = choose|i: int| 0 <= i < n - 1 && #[trigger] fewer[i] == h;
                assert(names[i] == names[n - 1]);
            }
        } else {
            if names.take(n).contains(h) {
                let i = choose|i: int| 0 <= i < n && #[trigger] names.take(n)[i] == h;
                assert(fewer[i] == h);
            }
            if fewer.contains(h) {
                let i = choose|i: int| 0 <= i < n - 1 && #[trigger] fewer[i] == h;
                assert(names.take(n)[i] == h);
            }
        }
    }
}

proof fn lemma_children_total_names(
    recs: Seq<Record>,
    names: Seq<Seq<u8>>,
    more: Seq<Seq<u8>>,
    n: int,
    weight: spec_fn(Record) -> nat,
)
    requires
        0 <= n <= names.len() <= more.len(),
        forall|i: int| 0 <= i < names.len() ==> names[i] == more[i],
    ensures
        children_total(recs, names, n, weight) == children_total(recs, more, n, weight),
    decreases n,
{
    if n > 0 {
        lemma_children_total_names(recs, names, more, n - 1, weight);
    }
}

/// Nothing is lost on the way down: what the records at a place come to is
/// what those for the place itself come to, and what its children come to.
pub proof fn law_children_add_up(recs: Seq<Record>, weight: spec_fn(Record) -> nat)
    requires
        ignores_path(weight),
    ensures
        total(recs, weight) == total(own_records(recs), weight) + children_total(
            recs,
            child_names(recs),
            child_names(recs).len() as int,
            weight,
        ),
    decreases recs.len(),
{
    reveal(Seq::filter);
    if recs.len() > 0 {
        let fewer = recs.drop_last();
        let last = recs.last();
        let names = child_names(fewer);
        let len = names.len() as int;
        assert(recs =~= fewer.push(last));
        law_children_add_up(fewer, weight);
        lemma_filter_push(fewer, last, |r: Record| r.rest.len() == 0);
        lemma_total_push(own_records(fewer), last, weight);
        lemma_names_distinct(fewer);
        lemma_children_total_push(fewer, last, names, len, weight);
        assert(names.take(len) =~= names);
        let h = head(last.rest);
        if last.rest.len() > 0 && !names.contains(h) {
            let more = names.push(h);
            lemma_children_total_names(recs, names, more, len, weight);
            lemma_unnamed_child(fewer, h);
            lemma_child_records_push(fewer, last, h);
            lemma_total_push(Seq::<Record>::empty(), step_down(last), weight);
            assert(weight(step_down(last)) == weight(last));
            assert(more[len] == h);
        }
    }
}

/// What the nodes of a list come to.
pub open spec fn nodes_total(nodes: Seq<TreeNode>, weight: spec_fn(TreeNode) -> nat) -> nat
    decreases nodes.len(),
{
    if nodes.len() == 0 {
        0
    } else {
        nodes_total(nodes.drop_last(), weight) + weight(nodes.last())
    }
}

proof fn lemma_nodes_total(
    nodes: Seq<TreeNode>,
    recs: Seq<Record>,
    names: Seq<Seq<u8>>,
    n: int,
    of_node: spec_fn(TreeNode) -> nat,
    of_record: spec_fn(Record) -> nat,
)
    requires
        0 <= n <= nodes.len() == names.len(),
        forall|i: int|
            0 <= i < nodes.len() ==> of_node(#[trigger] nodes[i]) == total(
                child_records(recs, names[i]),
                of_record,
            ),
    ensures
        nodes_total(nodes.take(n), of_node) == children_total(recs, names, n, of_record),
    decreases n,
{
    if n > 0 {
        lemma_nodes_total(nodes, recs, names, n - 1, of_node, of_record);
        assert(nodes.take(n).drop_last() =~= nodes.take(n - 1));
        assert(of_node(nodes[n - 1]) == total(child_records(recs, names[n - 1]), of_record));
    }
}

/// The numbers of a node are those of its children, and of the records for the
/// node itself.
pub proof fn law_node_is_sum_of_children(
    node: TreeNode,
    name: Seq<u8>,
    dir: bool,
    depth: u16,
    recs: Seq<Record>,
)
    requires
        is_tree_of(node, name, dir, depth, recs),
    ensures
        node.apparent_size == apparent_sum(own_records(recs)) + nodes_total(
            node.children@,
            |n: TreeNode| n.apparent_size as nat,
        ),
        node.disk_usage == disk_sum(own_records(recs)) + nodes_total(
            node.children@,
            |n: TreeNode| n.disk_usage as nat,
        ),
        node.file_count == file_records(own_records(recs)) + nodes_total(
            node.children@,
            |n: TreeNode| n.file_count as nat,
        ),
        node.dir_count == dir_records(own_records(recs)) + nodes_total(
            node.children@,
            |n: TreeNode| n.dir_count as nat,
        ),
{
    let names = child_names(recs);
    let n = names.len() as int;
    let nodes = node.children@;
    assert(nodes.take(n) =~= nodes);
    assert forall|i: int| 0 <= i < nodes.len() implies {
        &&& (#[trigger] nodes[i]).apparent_size == apparent_sum(child_records(recs, names[i]))
        &&& nodes[i].disk_usage == disk_sum(child_records(recs, names[i]))
        &&& nodes[i].file_count == file_records(child_records(recs, names[i]))
        &&& nodes[i].dir_count == dir_records(child_records(recs, names[i]))
    } by {
        assert(is_tree_of(
            nodes[i],
            names[i],
            false,
            depth_below(node.depth),
            child_records(recs, names[i]),
        ));
    }
    let apparent = |r: Record| r.apparent_size as nat;
    let disk = |r: Record| r.disk_usage as nat;
    let file = |r: Record|
        if r.is_dir {
            0nat
        } else {
            1nat
        };
    let dirs = |r: Record|
        if r.is_dir {
            1nat
        } else {
            0nat
        };
    law_children_add_up(recs, apparent);
    law_children_add_up(recs, disk);
    law_children_add_up(recs, file);
    law_children_add_up(recs, dirs);
    lemma_nodes_total(nodes, recs, names, n, |n: TreeNode| n.apparent_size as nat, apparent);
    lemma_nodes_total(nodes, recs, names, n, |n: TreeNode| n.disk_usage as nat, disk);
    lemma_nodes_total(nodes, recs, names, n, |n: TreeNode| n.file_count as nat, file);
    lemma_nodes_total(nodes, recs, names, n, |n: TreeNode| n.dir_count as nat, dirs);
}

/// The sum of what the first `n` roots have.
pub open spec fn roots_total(
    recs: Seq<Record>,
    roots: Seq<Seq<u8>>,
    n: int,
    weight: spec_fn(Record) -> nat,
) -> nat
    decreases n,
{
    if n <= 0 {
        0
    } else {
        roots_total(recs, roots, n - 1, weight) + total(
            root_records(recs, roots, n - 1),
            weight,
        )
    }
}

/// The records that lie below no root.
pub open spec fn rootless(recs: Seq<Record>, roots: Seq<Seq<u8>>) -> Seq<Record> {
    recs.filter(|r: Record| root_of(r.rest, roots) is None)
}

proof fn lemma_roots_total_push(
    recs: Seq<Record>,
    r: Record,
    roots: Seq<Seq<u8>>,
    n: int,
    weight: spec_fn(Record) -> nat,
)
    requires
        ignores_path(weight),
    ensures
        roots_total(recs.push(r), roots, n, weight) == roots_total(recs, roots, n, weight) + (
        match root_of(r.rest, roots) {
            Some(k) => if 0 <= k < n {
                weight(r)
            } else {
                0
            },
            None => 0,
        }),
    decreases n,
{
    if n > 0 {
        lemma_roots_total_push(recs, r, roots, n - 1, weight);
        lemma_root_records_push(recs, r, roots, n - 1);
        let seen = Record { rest: relative(r.rest, roots[n - 1]), ..r };
        assert(weight(seen) == weight(r));
        lemma_total_push(root_records(recs, roots, n - 1), seen, weight);
    }
}

proof fn lemma_no_records(roots: Seq<Seq<u8>>, n: int, weight: spec_fn(Record) -> nat)
    ensures
        roots_total(Seq::<Record>::empty(), roots, n, weight) == 0,
    decreases n,
{
    reveal(Seq::filter);
    if n > 0 {
        lemma_no_records(roots, n - 1, weight);
        assert(root_records(Seq::<Record>::empty(), roots, n - 1) =~= Seq::<Record>::empty());
    }
}

/// Every entry is counted under one root at most: what all records come to is
/// what the roots come to, and what lies below none.
pub proof fn law_roots_share_records(
    recs: Seq<Record>,
    roots: Seq<Seq<u8>>,
    weight: spec_fn(Record) -> nat,
)
    requires
        ignores_path(weight),
    ensures
        total(recs, weight) == total(rootless(recs, roots), weight) + roots_total(
            recs,
            roots,
            roots.len() as int,
            weight,
        ),
    decreases recs.len(),
{
    reveal(Seq::filter);
    if recs.len() == 0 {
        assert(recs =~= Seq::<Record>::empty());
        lemma_no_records(roots, roots.len() as int, weight);
    } else {
        let fewer = recs.drop_last();
        let last = recs.last();
        assert(recs =~= fewer.push(last));
        law_roots_share_records(fewer, roots, weight);
        lemma_roots_total_push(fewer, last, roots, roots.len() as int, weight);
        lemma_filter_push(fewer, last, |r: Record| root_of(r.rest, roots) is None);
        lemma_total_push(rootless(fewer, roots), last, weight);
        crate::paths::lemma_root_of(last.rest, roots);
    }
}

} // verus!
