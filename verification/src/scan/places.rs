//! Which entries the totals of a directory in the tree stand for.
use crate::bytes::{first_position, lemma_first_position, lemma_first_position_is};
use crate::paths::{child_path, has_prefix, root_of, SLASH};
use crate::scan::tree::{
    apparent_sum, child_names, child_records, dir_records, disk_sum, file_records, head,
    ignores_path, is_tree_of, leads_to, lemma_child_records_push, lemma_root_records_push,
    lemma_total_push, lemma_unnamed_child, relative, root_records, step_down, tail, total, Record,
    TreeNode,
};
use crate::seqs::{lemma_all_kept, lemma_filter_push};
use crate::walk::entry::depth_below;
use vstd::prelude::*;

verus! {

/// Whether a name can be a component of a path.
pub open spec fn is_component(name: Seq<u8>) -> bool {
    name.len() > 0 && !name.contains(SLASH)
}

/// Components with slashes between them.
pub open spec fn joined(names: Seq<Seq<u8>>) -> Seq<u8>
    decreases names.len(),
{
    if names.len() == 0 {
        Seq::empty()
    } else if names.len() == 1 {
        names[0]
    } else {
        names[0].push(SLASH) + joined(names.drop_first())
    }
}

proof fn lemma_head_of_component(rest: Seq<u8>, name: Seq<u8>)
    requires
        is_component(name),
        rest.len() > 0,
        head(rest) == name,
    ensures
        name.is_prefix_of(rest),
        rest.len() == name.len() || rest[name.len() as int] == SLASH,
        tail(rest) == (if rest.len() == name.len() {
            Seq::empty()
        } else {
            rest.skip(name.len() as int + 1)
        }),
{
    lemma_first_position(rest, SLASH);
    assert(name.len() == first_position(rest, SLASH));
    assert(rest.subrange(0, name.len() as int) =~= name);
}

proof fn lemma_component_is_head(rest: Seq<u8>, name: Seq<u8>)
    requires
        is_component(name),
        name.is_prefix_of(rest),
        rest.len() == name.len() || rest[name.len() as int] == SLASH,
    ensures
        head(rest) == name,
{
    assert forall|j: int| 0 <= j < name.len() implies rest[j] != SLASH by {
        assert(rest.subrange(0, name.len() as int)[j] == name[j]);
        assert(name.contains(name[j]));
    }
    lemma_first_position_is(rest, SLASH, name.len() as int);
    assert(head(rest) =~= name);
}

/// A path lies below a component if that component is its first.
proof fn lemma_below_component(rest: Seq<u8>, name: Seq<u8>)
    requires
        is_component(name),
    ensures
        has_prefix(rest, name) == (rest.len() > 0 && head(rest) == name),
{
    if rest.len() > 0 && head(rest) == name {
        lemma_head_of_component(rest, name);
    }
    if has_prefix(rest, name) {
        if name.last() == SLASH {
            assert(name.contains(name[name.len() - 1]));
        }
        lemma_component_is_head(rest, name);
    }
}

/// A path lies below a longer one if it agrees in the first component and what
/// follows it lies below the rest.
proof fn lemma_below_step(rest: Seq<u8>, name: Seq<u8>, more: Seq<u8>)
    requires
        is_component(name),
        more.len() > 0,
    ensures
        has_prefix(rest, name.push(SLASH) + more) == (rest.len() > 0 && head(rest) == name
            && has_prefix(tail(rest), more)),
{
    let whole = name.push(SLASH) + more;
    let n = name.len() as int;
    if has_prefix(rest, whole) {
        assert forall|j: int| 0 <= j < whole.len() implies rest[j] == whole[j] by {
            assert(rest.subrange(0, whole.len() as int)[j] == whole[j]);
        }
        assert(rest.subrange(0, n) =~= name);
        assert(rest[n] == SLASH);
        lemma_component_is_head(rest, name);
        lemma_head_of_component(rest, name);
        assert(tail(rest).subrange(0, more.len() as int) =~= more) by {
            assert forall|j: int| 0 <= j < more.len() implies tail(rest)[j] == more[j] by {
                assert(rest[n + 1 + j] == whole[n + 1 + j]);
            }
        }
        assert(more.last() == whole.last());
    }
    if rest.len() > 0 && head(rest) == name && has_prefix(tail(rest), more) {
        lemma_head_of_component(rest, name);
        assert forall|j: int| 0 <= j < whole.len() implies rest[j] == whole[j] by {
            if j < n {
                assert(rest.subrange(0, n)[j] == name[j]);
            } else if j > n {
                assert(tail(rest).subrange(0, more.len() as int)[j - n - 1] == more[j - n - 1]);
            }
        }
        assert(rest.subrange(0, whole.len() as int) =~= whole);
        assert(more.last() == whole.last());
    }
}

/// Whether a path leads along the names: it is their path or lies below it.
pub open spec fn leads_along(rest: Seq<u8>, names: Seq<Seq<u8>>) -> bool {
    names.len() == 0 || has_prefix(rest, joined(names))
}

pub open spec fn are_components(names: Seq<Seq<u8>>) -> bool {
    forall|i: int| 0 <= i < names.len() ==> is_component(#[trigger] names[i])
}

proof fn lemma_joined_not_empty(names: Seq<Seq<u8>>)
    requires
        are_components(names),
        names.len() > 0,
    ensures
        joined(names).len() > 0,
        joined(names)[0] != SLASH,
    decreases names.len(),
{
    let first = names[0];
    assert(is_component(first));
    assert(first.contains(first[0]));
    assert(joined(names)[0] == first[0]);
}

/// Leading along several names is leading to the first of them, and from there
/// along the others.
proof fn lemma_leads_along_step(r: Record, names: Seq<Seq<u8>>)
    requires
        are_components(names),
        names.len() > 0,
    ensures
        leads_along(r.rest, names) == (leads_to(r, names[0]) && leads_along(
            step_down(r).rest,
            names.drop_first(),
        )),
{
    let more = names.drop_first();
    assert(is_component(names[0]));
    if names.len() == 1 {
        lemma_below_component(r.rest, names[0]);
    } else {
        assert(are_components(more)) by {
            assert forall|i: int| 0 <= i < more.len() implies is_component(#[trigger] more[i]) by {
                assert(more[i] == names[i + 1]);
            }
        }
        lemma_joined_not_empty(more);
        lemma_below_step(r.rest, names[0], joined(more));
    }
}

/// The records that lead along the names.
pub open spec fn records_along(recs: Seq<Record>, names: Seq<Seq<u8>>) -> Seq<Record> {
    recs.filter(|r: Record| leads_along(r.rest, names))
}

proof fn lemma_along_child(
    recs: Seq<Record>,
    names: Seq<Seq<u8>>,
    weight: spec_fn(Record) -> nat,
)
    requires
        are_components(names),
        names.len() > 0,
        ignores_path(weight),
    ensures
        total(records_along(child_records(recs, names[0]), names.drop_first()), weight) == total(
            records_along(recs, names),
            weight,
        ),
        records_along(child_records(recs, names[0]), names.drop_first()).len() == records_along(
            recs,
            names,
        ).len(),
    decreases recs.len(),
{
    let first = names[0];
    let more = names.drop_first();
    if recs.len() == 0 {
        reveal(Seq::filter);
        assert(child_records(recs, first) =~= Seq::<Record>::empty());
    } else {
        let fewer = recs.drop_last();
        let r = recs.last();
        assert(recs =~= fewer.push(r));
        lemma_along_child(fewer, names, weight);
        lemma_child_records_push(fewer, r, first);
        lemma_leads_along_step(r, names);
        let below = child_records(fewer, first);
        lemma_filter_push(fewer, r, |r: Record| leads_along(r.rest, names));
        lemma_filter_push(below, step_down(r), |r: Record| leads_along(r.rest, more));
        lemma_total_push(records_along(fewer, names), r, weight);
        lemma_total_push(records_along(below, more), step_down(r), weight);
        assert(weight(step_down(r)) == weight(r));
    }
}

/// The first child called `name`, from the one at `i` on.
pub open spec fn child_from(children: Seq<TreeNode>, name: Seq<u8>, i: int) -> Option<int>
    decreases children.len() - i,
{
    if i >= children.len() {
        None
    } else if children[i].name@ == name {
        Some(i)
    } else {
        child_from(children, name, i + 1)
    }
}

pub(crate) proof fn lemma_child_from(children: Seq<TreeNode>, name: Seq<u8>, i: int)
    requires
        0 <= i,
    ensures
        match child_from(children, name, i) {
            Some(k) => i <= k < children.len() && children[k].name@ == name,
            None => forall|k: int|
                i <= k < children.len() ==> (#[trigger] children[k]).name@ != name,
        },
    decreases children.len() - i,
{
    if i < children.len() && children[i].name@ != name {
        lemma_child_from(children, name, i + 1);
    }
}

/// The node that the names lead to from a node.
pub open spec fn node_at(node: TreeNode, names: Seq<Seq<u8>>) -> Option<TreeNode>
    decreases names.len(),
{
    if names.len() == 0 {
        Some(node)
    } else {
        match child_from(node.children@, names[0], 0) {
            Some(i) => node_at(node.children@[i], names.drop_first()),
            None => None,
        }
    }
}

/// What a node has, by a weight that its totals show.
proof fn lemma_node_at(
    node: TreeNode,
    name: Seq<u8>,
    dir: bool,
    depth: u16,
    recs: Seq<Record>,
    names: Seq<Seq<u8>>,
)
    requires
        are_components(names),
        is_tree_of(node, name, dir, depth, recs),
    ensures
        match node_at(node, names) {
            Some(found) => {
                &&& found.apparent_size == apparent_sum(records_along(recs, names))
                &&& found.disk_usage == disk_sum(records_along(recs, names))
                &&& found.file_count == file_records(records_along(recs, names))
                &&& found.dir_count == dir_records(records_along(recs, names))
            },
            None => records_along(recs, names).len() == 0,
        },
    decreases names.len(),
{
    if names.len() == 0 {
        lemma_all_kept(recs, |r: Record| leads_along(r.rest, names));
    } else {
        let first = names[0];
        let more = names.drop_first();
        assert(are_components(more)) by {
            assert forall|i: int| 0 <= i < more.len() implies is_component(#[trigger] more[i]) by {
                assert(more[i] == names[i + 1]);
            }
        }
        lemma_child_from(node.children@, first, 0);
        let called = child_names(recs);
        let below = child_records(recs, first);
        lemma_along_child(recs, names, |r: Record| r.apparent_size as nat);
        lemma_along_child(recs, names, |r: Record| r.disk_usage as nat);
        lemma_along_child(
            recs,
            names,
            |r: Record|
                if r.is_dir {
                    0
                } else {
                    1
                },
        );
        lemma_along_child(
            recs,
            names,
            |r: Record|
                if r.is_dir {
                    1
                } else {
                    0
                },
        );
        match child_from(node.children@, first, 0) {
            Some(i) => {
                let child = node.children@[i];
                assert(is_tree_of(
                    child,
                    called[i],
                    false,
                    depth_below(node.depth),
                    child_records(recs, called[i]),
                ));
                assert(called[i] == first);
                lemma_node_at(
                    child,
                    first,
                    false,
                    depth_below(node.depth),
                    below,
                    more,
                );
            },
            None => {
                if called.contains(first) {
                    let i = choose|i: int| 0 <= i < called.len() && called[i] == first;
                    assert(is_tree_of(
                        node.children@[i],
                        called[i],
                        false,
                        depth_below(node.depth),
                        child_records(recs, called[i]),
                    ));
                    assert(node.children@[i].name@ == first);
                }
                lemma_unnamed_child(recs, first);
                reveal(Seq::filter);
                assert(records_along(below, more).len() == 0);
            },
        }
    }
}

/// A path below a root lies below a path below that root if the parts that
/// follow the root do.
proof fn lemma_below_root(path: Seq<u8>, root: Seq<u8>, more: Seq<u8>)
    requires
        has_prefix(path, root),
        more.len() > 0,
        more[0] != SLASH,
    ensures
        has_prefix(relative(path, root), more) == has_prefix(path, child_path(root, more)),
{
    let whole = child_path(root, more);
    let rest = relative(path, root);
    let skipped = whole.len() - more.len();
    if root.len() > 0 {
        assert forall|j: int| 0 <= j < root.len() implies path[j] == root[j] by {
            assert(path.subrange(0, root.len() as int)[j] == root[j]);
        }
    }
    assert(whole.last() == more.last());
    if path.len() >= skipped {
        assert(rest =~= path.skip(skipped));
        if has_prefix(rest, more) {
            assert forall|j: int| 0 <= j < whole.len() implies path[j] == whole[j] by {
                if j >= skipped {
                    assert(rest.subrange(0, more.len() as int)[j - skipped] == more[j - skipped]);
                }
            }
            assert(path.subrange(0, whole.len() as int) =~= whole);
        }
        if has_prefix(path, whole) {
            assert forall|j: int| 0 <= j < more.len() implies rest[j] == more[j] by {
                assert(path.subrange(0, whole.len() as int)[j + skipped] == whole[j + skipped]);
            }
            assert(rest.subrange(0, more.len() as int) =~= more);
        }
    } else {
        assert(path =~= root);
        assert(rest =~= Seq::<u8>::empty());
    }
}

/// The records that are counted under the root at `k`, at or below the path
/// that the names lead to from it.
pub open spec fn entries_below(
    recs: Seq<Record>,
    roots: Seq<Seq<u8>>,
    k: int,
    names: Seq<Seq<u8>>,
) -> Seq<Record> {
    recs.filter(
        |r: Record|
            root_of(r.rest, roots) == Some(k) && (names.len() == 0 || has_prefix(
                r.rest,
                child_path(roots[k], joined(names)),
            )),
    )
}

proof fn lemma_entries_below(
    recs: Seq<Record>,
    roots: Seq<Seq<u8>>,
    k: int,
    names: Seq<Seq<u8>>,
    weight: spec_fn(Record) -> nat,
)
    requires
        are_components(names),
        ignores_path(weight),
    ensures
        total(records_along(root_records(recs, roots, k), names), weight) == total(
            entries_below(recs, roots, k, names),
            weight,
        ),
        records_along(root_records(recs, roots, k), names).len() == entries_below(
            recs,
            roots,
            k,
            names,
        ).len(),
    decreases recs.len(),
{
    if recs.len() == 0 {
        reveal(Seq::filter);
        assert(root_records(recs, roots, k) =~= Seq::<Record>::empty());
    } else {
        let fewer = recs.drop_last();
        let r = recs.last();
        let seen = Record { rest: relative(r.rest, roots[k]), ..r };
        assert(recs =~= fewer.push(r));
        lemma_entries_below(fewer, roots, k, names, weight);
        lemma_root_records_push(fewer, r, roots, k);
        crate::paths::lemma_root_of(r.rest, roots);
        let counted = |r: Record|
            root_of(r.rest, roots) == Some(k) && (names.len() == 0 || has_prefix(
                r.rest,
                child_path(roots[k], joined(names)),
            ));
        let below = root_records(fewer, roots, k);
        lemma_filter_push(fewer, r, counted);
        lemma_filter_push(below, seen, |r: Record| leads_along(r.rest, names));
        lemma_total_push(entries_below(fewer, roots, k, names), r, weight);
        lemma_total_push(records_along(below, names), seen, weight);
        assert(weight(seen) == weight(r));
        if names.len() > 0 && root_of(r.rest, roots) == Some(k) {
            lemma_joined_not_empty(names);
            lemma_below_root(r.rest, roots[k], joined(names));
        }
    }
}

/// The totals of a directory are those of its path: the node that names lead
/// to from a root has the sizes and the numbers of all the entries of that root
/// whose path is the path of the directory or lies below it. Where the names
/// lead to no node, there are no such entries.
pub proof fn law_directory_totals(
    tree: TreeNode,
    recs: Seq<Record>,
    roots: Seq<Seq<u8>>,
    k: int,
    names: Seq<Seq<u8>>,
)
    requires
        is_tree_of(tree, roots[k], true, 0, root_records(recs, roots, k)),
        are_components(names),
    ensures
        match node_at(tree, names) {
            Some(node) => {
                &&& node.apparent_size == apparent_sum(entries_below(recs, roots, k, names))
                &&& node.disk_usage == disk_sum(entries_below(recs, roots, k, names))
                &&& node.file_count == file_records(entries_below(recs, roots, k, names))
                &&& node.dir_count == dir_records(entries_below(recs, roots, k, names))
            },
            None => entries_below(recs, roots, k, names).len() == 0,
        },
{
    lemma_node_at(tree, roots[k], true, 0, root_records(recs, roots, k), names);
    lemma_entries_below(recs, roots, k, names, |r: Record| r.apparent_size as nat);
    lemma_entries_below(recs, roots, k, names, |r: Record| r.disk_usage as nat);
    lemma_entries_below(
        recs,
        roots,
        k,
        names,
        |r: Record|
            if r.is_dir {
                0
            } else {
                1
            },
    );
    lemma_entries_below(
        recs,
        roots,
        k,
        names,
        |r: Record|
            if r.is_dir {
                1
            } else {
                0
            },
    );
}

/// Whether a path is the path of a place, with or without a slash at its end.
pub open spec fn is_at(path: Seq<u8>, place: Seq<u8>) -> bool {
    path == place || path == place.push(SLASH)
}

/// A record as seen from the place that the names lead to.
pub(crate) open spec fn step_along(r: Record, names: Seq<Seq<u8>>) -> Record
    decreases names.len(),
{
    if names.len() == 0 {
        r
    } else {
        step_along(step_down(r), names.drop_first())
    }
}

/// The records that lead along the names, as seen from there.
pub(crate) open spec fn records_from(recs: Seq<Record>, names: Seq<Seq<u8>>) -> Seq<Record>
    decreases names.len(),
{
    if names.len() == 0 {
        recs
    } else {
        records_from(child_records(recs, names[0]), names.drop_first())
    }
}

proof fn lemma_fewer_components(names: Seq<Seq<u8>>)
    requires
        are_components(names),
        names.len() > 0,
    ensures
        are_components(names.drop_first()),
{
    let more = names.drop_first();
    assert forall|i: int| 0 <= i < more.len() implies is_component(#[trigger] more[i]) by {
        assert(more[i] == names[i + 1]);
    }
}

pub(crate) proof fn lemma_no_records_from(names: Seq<Seq<u8>>)
    ensures
        records_from(Seq::empty(), names) == Seq::<Record>::empty(),
    decreases names.len(),
{
    if names.len() > 0 {
        reveal(Seq::filter);
        assert(child_records(Seq::empty(), names[0]) =~= Seq::<Record>::empty());
        lemma_no_records_from(names.drop_first());
    }
}

pub(crate) proof fn lemma_records_from_push(recs: Seq<Record>, r: Record, names: Seq<Seq<u8>>)
    requires
        are_components(names),
    ensures
        records_from(recs.push(r), names) == (if leads_along(r.rest, names) {
            records_from(recs, names).push(step_along(r, names))
        } else {
            records_from(recs, names)
        }),
    decreases names.len(),
{
    if names.len() > 0 {
        lemma_fewer_components(names);
        lemma_child_records_push(recs, r, names[0]);
        lemma_leads_along_step(r, names);
        lemma_records_from_push(child_records(recs, names[0]), step_down(r), names.drop_first());
    }
}

/// A record that leads along names is for the place itself where nothing is
/// left of its path.
pub(crate) proof fn lemma_step_along(r: Record, names: Seq<Seq<u8>>)
    requires
        are_components(names),
        names.len() > 0,
        leads_along(r.rest, names),
    ensures
        (step_along(r, names).rest.len() == 0) == is_at(r.rest, joined(names)),
        step_along(r, names) == (Record { rest: step_along(r, names).rest, ..r }),
    decreases names.len(),
{
    let name = names[0];
    let more = names.drop_first();
    let n = name.len() as int;
    lemma_fewer_components(names);
    lemma_leads_along_step(r, names);
    assert(is_component(name));
    lemma_head_of_component(r.rest, name);
    assert(r.rest.subrange(0, n) =~= name);
    if names.len() == 1 {
        assert(joined(names) == name);
        assert(step_along(r, names) == step_along(step_down(r), more));
        if r.rest.len() == n {
            assert(r.rest =~= name);
        } else if tail(r.rest).len() == 0 {
            assert(r.rest =~= name.push(SLASH));
        }
    } else {
        lemma_step_along(step_down(r), more);
        lemma_joined_not_empty(more);
        let whole = joined(names);
        let rest = tail(r.rest);
        assert(whole == name.push(SLASH) + joined(more));
        assert(r.rest.len() > n);
        assert(r.rest =~= name.push(SLASH) + rest);
        assert(rest =~= r.rest.skip(n + 1));
        if is_at(rest, joined(more)) {
            assert(whole.push(SLASH) =~= name.push(SLASH) + joined(more).push(SLASH));
        }
        if is_at(r.rest, whole) {
            assert(whole.skip(n + 1) =~= joined(more));
            assert(whole.push(SLASH).skip(n + 1) =~= joined(more).push(SLASH));
        }
    }
}

/// The node that names lead to is the tree of the records that lead there.
pub(crate) proof fn lemma_node_from(
    node: TreeNode,
    name: Seq<u8>,
    dir: bool,
    depth: u16,
    recs: Seq<Record>,
    names: Seq<Seq<u8>>,
)
    requires
        are_components(names),
        names.len() > 0,
        is_tree_of(node, name, dir, depth, recs),
        records_from(recs, names).len() > 0,
    ensures
        node_at(node, names) is Some,
        exists|inherited: u16| #[trigger]
            is_tree_of(
                node_at(node, names)->Some_0,
                names.last(),
                false,
                inherited,
                records_from(recs, names),
            ),
    decreases names.len(),
{
    let first = names[0];
    let more = names.drop_first();
    let called = child_names(recs);
    lemma_fewer_components(names);
    lemma_child_from(node.children@, first, 0);
    if !called.contains(first) {
        lemma_unnamed_child(recs, first);
        lemma_no_records_from(more);
    }
    let at = choose|at: int| 0 <= at < called.len() && called[at] == first;
    assert(is_tree_of(
        node.children@[at],
        called[at],
        false,
        depth_below(node.depth),
        child_records(recs, called[at]),
    ));
    assert(node.children@[at].name@ == first);
    let i = child_from(node.children@, first, 0)->Some_0;
    assert(is_tree_of(
        node.children@[i],
        called[i],
        false,
        depth_below(node.depth),
        child_records(recs, called[i]),
    ));
    assert(called[i] == first);
    assert(node_at(node, names) == node_at(node.children@[i], more));
    if more.len() == 0 {
        assert(node_at(node.children@[i], more) == Some(node.children@[i]));
        assert(names.last() == first);
        assert(records_from(recs, names) == records_from(child_records(recs, first), more));
        assert(is_tree_of(
            node_at(node, names)->Some_0,
            names.last(),
            false,
            depth_below(node.depth),
            records_from(recs, names),
        ));
    } else {
        lemma_node_from(
            node.children@[i],
            first,
            false,
            depth_below(node.depth),
            child_records(recs, first),
            more,
        );
        assert(more.last() == names.last());
    }
}

/// A path below a root is at a place below that root if the part that follows
/// the root is at the part that follows it there.
pub(crate) proof fn lemma_at_below_root(path: Seq<u8>, root: Seq<u8>, names: Seq<Seq<u8>>)
    requires
        has_prefix(path, root),
        are_components(names),
        names.len() > 0,
    ensures
        leads_along(relative(path, root), names) == has_prefix(
            path,
            child_path(root, joined(names)),
        ),
        is_at(relative(path, root), joined(names)) == is_at(
            path,
            child_path(root, joined(names)),
        ),
{
    let more = joined(names);
    let whole = child_path(root, more);
    let rest = relative(path, root);
    let skipped = whole.len() - more.len();
    lemma_joined_not_empty(names);
    lemma_below_root(path, root, more);
    if root.len() > 0 {
        assert forall|j: int| 0 <= j < root.len() implies path[j] == root[j] by {
            assert(path.subrange(0, root.len() as int)[j] == root[j]);
        }
    }
    if path.len() >= skipped {
        assert(rest =~= path.skip(skipped));
        assert(path =~= path.take(skipped) + rest);
        assert(path.take(skipped) =~= whole.take(skipped));
        assert(whole =~= whole.take(skipped) + more);
        assert(whole.push(SLASH) =~= whole.take(skipped) + more.push(SLASH));
        if path == whole {
            assert(rest =~= more);
        }
        if path == whole.push(SLASH) {
            assert(rest =~= more.push(SLASH));
        }
    } else {
        assert(path =~= root);
        assert(rest =~= Seq::<u8>::empty());
    }
}

/// The node that names lead to takes its depth from the node above it, unless a
/// record gives it one.
pub(crate) proof fn lemma_child_node(
    node: TreeNode,
    name: Seq<u8>,
    dir: bool,
    depth: u16,
    recs: Seq<Record>,
    names: Seq<Seq<u8>>,
    last: Seq<u8>,
)
    requires
        are_components(names),
        is_component(last),
        is_tree_of(node, name, dir, depth, recs),
        records_from(recs, names.push(last)).len() > 0,
    ensures
        node_at(node, names) is Some,
        node_at(node, names.push(last)) is Some,
        is_tree_of(
            node_at(node, names.push(last))->Some_0,
            last,
            false,
            depth_below(node_at(node, names)->Some_0.depth),
            records_from(recs, names.push(last)),
        ),
    decreases names.len(),
{
    let all = names.push(last);
    let first = all[0];
    let more = all.drop_first();
    let called = child_names(recs);
    lemma_child_from(node.children@, first, 0);
    if !called.contains(first) {
        lemma_unnamed_child(recs, first);
        lemma_no_records_from(more);
    }
    let at = choose|at: int| 0 <= at < called.len() && called[at] == first;
    assert(is_tree_of(
        node.children@[at],
        called[at],
        false,
        depth_below(node.depth),
        child_records(recs, called[at]),
    ));
    assert(node.children@[at].name@ == first);
    let i = child_from(node.children@, first, 0)->Some_0;
    let child = node.children@[i];
    assert(is_tree_of(
        child,
        called[i],
        false,
        depth_below(node.depth),
        child_records(recs, called[i]),
    ));
    assert(called[i] == first);
    assert(node_at(node, all) == node_at(child, more));
    assert(records_from(recs, all) == records_from(child_records(recs, first), more));
    if names.len() == 0 {
        assert(more =~= Seq::<Seq<u8>>::empty());
        assert(node_at(child, more) == Some(child));
        assert(node_at(node, names) == Some(node));
    } else {
        lemma_fewer_components(names);
        assert(more =~= names.drop_first().push(last));
        assert(first == names[0]);
        lemma_child_node(
            child,
            first,
            false,
            depth_below(node.depth),
            child_records(recs, first),
            names.drop_first(),
            last,
        );
        assert(node_at(node, names) == node_at(child, names.drop_first()));
    }
}

/// Whether no two children of a node, or of one below it, have the same name.
pub open spec fn siblings_differ(node: TreeNode) -> bool
    decreases node,
{
    &&& forall|i: int, j: int|
        #![trigger node.children@[i], node.children@[j]]
        0 <= i < j < node.children@.len() ==> node.children@[i].name@ != node.children@[j].name@
    &&& forall|i: int|
        0 <= i < node.children@.len() ==> siblings_differ(#[trigger] node.children@[i])
}

/// In the tree of any records, no two children of a node have the same name: all
/// records that lead to one name are gathered in one node.
pub proof fn law_siblings_differ(
    node: TreeNode,
    name: Seq<u8>,
    dir: bool,
    depth: u16,
    recs: Seq<Record>,
)
    requires
        is_tree_of(node, name, dir, depth, recs),
    ensures
        siblings_differ(node),
    decreases node,
{
    let called = child_names(recs);
    crate::scan::tree::lemma_names_distinct(recs);
    assert forall|i: int| 0 <= i < node.children@.len() implies {
        &&& siblings_differ(#[trigger] node.children@[i])
        &&& node.children@[i].name@ == called[i]
    } by {
        assert(is_tree_of(
            node.children@[i],
            called[i],
            false,
            depth_below(node.depth),
            child_records(recs, called[i]),
        ));
        law_siblings_differ(
            node.children@[i],
            called[i],
            false,
            depth_below(node.depth),
            child_records(recs, called[i]),
        );
    }
}

/// Whether a record that leads to `name` stands before every record that leads to
/// `other`.
pub open spec fn is_found_first(recs: Seq<Record>, name: Seq<u8>, other: Seq<u8>) -> bool {
    exists|p: int|
        #![trigger recs[p]]
        {
            &&& 0 <= p < recs.len()
            &&& leads_to(recs[p], name)
            &&& forall|q: int| 0 <= q <= p ==> !leads_to(#[trigger] recs[q], other)
        }
}

proof fn lemma_names_in_order(recs: Seq<Record>, i: int, j: int)
    requires
        0 <= i < j < child_names(recs).len(),
    ensures
        is_found_first(recs, child_names(recs)[i], child_names(recs)[j]),
    decreases recs.len(),
{
    let fewer = recs.drop_last();
    let names = child_names(fewer);
    let all = child_names(recs);
    assert forall|k: int| 0 <= k < names.len() implies all[k] == names[k] by {}
    let (name, other) = (all[i], all[j]);
    if j < names.len() {
        lemma_names_in_order(fewer, i, j);
        let p = choose|p: int|
            #![trigger fewer[p]]
            {
                &&& 0 <= p < fewer.len()
                &&& leads_to(fewer[p], name)
                &&& forall|q: int| 0 <= q <= p ==> !leads_to(#[trigger] fewer[q], other)
            };
        assert(recs[p] == fewer[p]);
        assert forall|q: int| 0 <= q <= p implies !leads_to(#[trigger] recs[q], other) by {
            assert(recs[q] == fewer[q]);
        }
    } else {
        let p = lemma_name_is_found(fewer, i);
        assert(recs[p] == fewer[p]);
        assert forall|q: int| 0 <= q <= p implies !leads_to(#[trigger] recs[q], other) by {
            assert(recs[q] == fewer[q]);
            if leads_to(fewer[q], other) {
                lemma_found_is_named(fewer, q);
                assert(names.contains(other));
            }
        }
    }
}

proof fn lemma_name_is_found(recs: Seq<Record>, i: int) -> (p: int)
    requires
        0 <= i < child_names(recs).len(),
    ensures
        0 <= p < recs.len(),
        leads_to(recs[p], child_names(recs)[i]),
    decreases recs.len(),
{
    let fewer = recs.drop_last();
    if i < child_names(fewer).len() {
        let p = lemma_name_is_found(fewer, i);
        assert(recs[p] == fewer[p]);
        p
    } else {
        recs.len() - 1
    }
}

proof fn lemma_found_is_named(recs: Seq<Record>, q: int)
    requires
        0 <= q < recs.len(),
        recs[q].rest.len() > 0,
    ensures
        child_names(recs).contains(head(recs[q].rest)),
    decreases recs.len(),
{
    let fewer = recs.drop_last();
    let names = child_names(fewer);
    let all = child_names(recs);
    let name = head(recs[q].rest);
    if q < fewer.len() {
        lemma_found_is_named(fewer, q);
        assert(fewer[q] == recs[q]);
    }
    if names.contains(name) {
        let k = choose|k: int| 0 <= k < names.len() && names[k] == name;
        assert(all[k] == name);
    } else {
        assert(all[names.len() as int] == name);
    }
}

/// The children of a node stand in the order in which they were found.
pub proof fn law_children_stand_as_found(
    node: TreeNode,
    name: Seq<u8>,
    dir: bool,
    depth: u16,
    recs: Seq<Record>,
    i: int,
    j: int,
)
    requires
        is_tree_of(node, name, dir, depth, recs),
        0 <= i < j < node.children@.len(),
    ensures
        is_found_first(recs, node.children@[i].name@, node.children@[j].name@),
{
    let called = child_names(recs);
    lemma_names_in_order(recs, i, j);
    assert(is_tree_of(
        node.children@[i],
        called[i],
        false,
        depth_below(node.depth),
        child_records(recs, called[i]),
    ));
    assert(is_tree_of(
        node.children@[j],
        called[j],
        false,
        depth_below(node.depth),
        child_records(recs, called[j]),
    ));
}

} // verus!
