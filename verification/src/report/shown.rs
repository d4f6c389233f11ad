//! What the reports show of a tree.
use crate::report::human::{
    dir_lines, is_top, lines_below, lines_of_trees, list_dirs, root_lines, rule_line,
    write_top_line, DirLine, HumanReport, Line,
};
use crate::report::json::{
    shows_node, shows_result, tree_to_json_nodes, JsonOutput, JsonTreeNode,
};
use crate::report::ncdu::{document, json_text, missing_tree_note, node_json, Json};
use crate::report::numbers::{
    digits_value, is_plain_number, is_written_count, lemma_decimal_reads_back,
    lemma_grouped_is_written,
};
use crate::report::ranking::{bytes_in_order, first_lines, in_order, is_ranking, top_dirs};
use crate::scan::aggregator::ScanResult;
use crate::scan::tree::{is_tree_of, Record, TreeNode};
use crate::text::utf8_lossy;
use crate::walk::entry::depth_below;
use crate::walk::error::{lemma_failure_text, names_error, WalkError};
use vstd::prelude::*;
use vstd::utf8::encode_utf8;

verus! {

/// Whether the steps lead from a node to one at or below it: each step is the
/// number of a child.
pub open spec fn leads_down(node: TreeNode, steps: Seq<int>) -> bool
    decreases steps.len(),
{
    steps.len() == 0 || (0 <= steps[0] < node.children@.len() && leads_down(
        node.children@[steps[0]],
        steps.drop_first(),
    ))
}

/// The node that the steps lead to.
pub open spec fn below(node: TreeNode, steps: Seq<int>) -> TreeNode
    decreases steps.len(),
{
    if steps.len() == 0 {
        node
    } else {
        below(node.children@[steps[0]], steps.drop_first())
    }
}

/// Whether only directories have something below them.
pub open spec fn files_are_leaves(node: TreeNode) -> bool
    decreases node,
{
    &&& node.children@.len() > 0 ==> node.is_dir
    &&& forall|i: int|
        0 <= i < node.children@.len() ==> files_are_leaves(#[trigger] node.children@[i])
}

/// In the tree of any records, only directories have something below them.
pub proof fn law_files_are_leaves(
    node: TreeNode,
    name: Seq<u8>,
    dir: bool,
    depth: u16,
    recs: Seq<Record>,
)
    requires
        is_tree_of(node, name, dir, depth, recs),
    ensures
        files_are_leaves(node),
    decreases node,
{
    let names = crate::scan::tree::child_names(recs);
    assert forall|i: int| 0 <= i < node.children@.len() implies files_are_leaves(
        #[trigger] node.children@[i],
    ) by {
        law_files_are_leaves(
            node.children@[i],
            names[i],
            false,
            depth_below(node.depth),
            crate::scan::tree::child_records(recs, names[i]),
        );
    }
}

/// The number of nodes at and below a node.
pub open spec fn node_count(node: TreeNode) -> nat
    decreases node, node.children@.len() + 1,
{
    1 + node_count_below(node, node.children@.len() as int)
}

/// The number of nodes at and below the first `n` children of a node.
pub open spec fn node_count_below(node: TreeNode, n: int) -> nat
    decreases node, n,
{
    if n <= 0 || n > node.children@.len() {
        0
    } else {
        node_count_below(node, n - 1) + node_count(node.children@[n - 1])
    }
}

/// The number of directories below the first `n` children of a node, those
/// children among them.
pub open spec fn dir_count_below(node: TreeNode, n: int) -> nat
    decreases node, n,
{
    if n <= 0 || n > node.children@.len() {
        0
    } else {
        let child = node.children@[n - 1];
        let own = if child.is_dir {
            1nat
        } else {
            0
        };
        dir_count_below(node, n - 1) + dir_count_below(child, child.children@.len() as int) + own
    }
}

/// The number of directories below the roots of the trees.
pub open spec fn dirs_of_trees(trees: Seq<TreeNode>) -> nat
    decreases trees.len(),
{
    if trees.len() == 0 {
        0
    } else {
        let last = trees.last();
        dirs_of_trees(trees.drop_last()) + dir_count_below(last, last.children@.len() as int)
    }
}

/// How the root of a tree is shown: an empty name as a slash.
pub open spec fn shown_root(root: TreeNode) -> Seq<char> {
    if utf8_lossy(root.name@).len() == 0 {
        seq!['/']
    } else {
        utf8_lossy(root.name@)
    }
}

/// How the path of the node that the steps lead to is shown, where `text` is how
/// that of `node` is: with a slash before each name, but not twice behind the
/// path that is a slash alone.
pub open spec fn shown_path(text: Seq<char>, node: TreeNode, steps: Seq<int>) -> Seq<char>
    decreases steps.len(),
{
    if steps.len() == 0 {
        text
    } else {
        let child = node.children@[steps[0]];
        let front = if text == seq!['/'] {
            Seq::empty()
        } else {
            text
        };
        shown_path(
            front + seq!['/'] + utf8_lossy(child.name@),
            child,
            steps.drop_first(),
        )
    }
}

/// What is listed of a directory: the size that was asked for, and its path.
pub open spec fn shown_line(node: TreeNode, path: Seq<char>, apparent: bool) -> Line {
    Line {
        size: if apparent {
            node.apparent_size
        } else {
            node.disk_usage
        },
        path,
    }
}

proof fn lemma_dir_lines_below(
    node: TreeNode,
    text: Seq<char>,
    apparent: bool,
    itself: bool,
    steps: Seq<int>,
)
    requires
        files_are_leaves(node),
        leads_down(node, steps),
        below(node, steps).is_dir,
        steps.len() > 0 || itself,
    ensures
        dir_lines(node, text, apparent, itself).contains(
            shown_line(below(node, steps), shown_path(text, node, steps), apparent),
        ),
    decreases steps.len(),
{
    let line = shown_line(below(node, steps), shown_path(text, node, steps), apparent);
    let all = dir_lines(node, text, apparent, itself);
    if steps.len() == 0 {
        assert(all[0] == line);
    } else {
        let i = steps[0];
        let child = node.children@[i];
        let front = if text == seq!['/'] {
            Seq::empty()
        } else {
            text
        };
        let next = front + seq!['/'] + utf8_lossy(child.name@);
        assert(next =~= crate::report::human::text_below(text, utf8_lossy(child.name@)));
        lemma_dir_lines_below(child, next, apparent, true, steps.drop_first());
        lemma_child_lines(node, text, apparent, i, node.children@.len() as int, line);
        let rest = lines_below(node, text, apparent, node.children@.len() as int);
        let j = choose|j: int| 0 <= j < rest.len() && rest[j] == line;
        assert(all[all.len() - rest.len() + j] == line);
    }
}

proof fn lemma_child_lines(
    node: TreeNode,
    text: Seq<char>,
    apparent: bool,
    i: int,
    n: int,
    line: Line,
)
    requires
        0 <= i < n <= node.children@.len(),
        dir_lines(
            node.children@[i],
            crate::report::human::text_below(text, utf8_lossy(node.children@[i].name@)),
            apparent,
            true,
        ).contains(line),
    ensures
        lines_below(node, text, apparent, n).contains(line),
    decreases n,
{
    let all = lines_below(node, text, apparent, n);
    let fewer = lines_below(node, text, apparent, n - 1);
    if i < n - 1 {
        lemma_child_lines(node, text, apparent, i, n - 1, line);
        let j = choose|j: int| 0 <= j < fewer.len() && fewer[j] == line;
        assert(all[j] == line);
    } else {
        let own = dir_lines(
            node.children@[i],
            crate::report::human::text_below(text, utf8_lossy(node.children@[i].name@)),
            apparent,
            true,
        );
        let j = choose|j: int| 0 <= j < own.len() && own[j] == line;
        assert(all[fewer.len() + j] == line);
    }
}

/// Every directory below the root of any of the trees is listed, with its size
/// and its path from that root on.
pub proof fn law_every_directory_is_listed(
    trees: Seq<TreeNode>,
    apparent: bool,
    k: int,
    steps: Seq<int>,
)
    requires
        0 <= k < trees.len(),
        files_are_leaves(trees[k]),
        leads_down(trees[k], steps),
        steps.len() > 0,
        below(trees[k], steps).is_dir,
    ensures
        lines_of_trees(trees, apparent).contains(
            shown_line(
                below(trees[k], steps),
                shown_path(shown_root(trees[k]), trees[k], steps),
                apparent,
            ),
        ),
    decreases trees.len(),
{
    let root = trees[k];
    let line = shown_line(below(root, steps), shown_path(shown_root(root), root, steps), apparent);
    let all = lines_of_trees(trees, apparent);
    let fewer = lines_of_trees(trees.drop_last(), apparent);
    if k < trees.len() - 1 {
        law_every_directory_is_listed(trees.drop_last(), apparent, k, steps);
        let j = choose|j: int| 0 <= j < fewer.len() && fewer[j] == line;
        assert(all[j] == line);
    } else {
        let text = crate::report::human::root_text(root.name@);
        lemma_dir_lines_below(root, text, apparent, false, steps);
        let own = dir_lines(root, text, apparent, false);
        let j = choose|j: int| 0 <= j < own.len() && own[j] == line;
        assert(all[fewer.len() + j] == line);
    }
}

/// Whether a line shows a directory at or below a node whose path is shown as
/// `text`, the node itself only if `itself` says so.
pub open spec fn shows_directory(
    line: Line,
    node: TreeNode,
    text: Seq<char>,
    apparent: bool,
    itself: bool,
) -> bool {
    exists|steps: Seq<int>|
        #![trigger below(node, steps)]
        {
            &&& leads_down(node, steps)
            &&& steps.len() > 0 || itself
            &&& below(node, steps).is_dir
            &&& line == shown_line(below(node, steps), shown_path(text, node, steps), apparent)
        }
}

proof fn lemma_line_shows(
    node: TreeNode,
    text: Seq<char>,
    apparent: bool,
    itself: bool,
    line: Line,
)
    requires
        dir_lines(node, text, apparent, itself).contains(line),
    ensures
        shows_directory(line, node, text, apparent, itself),
    decreases node, node.children@.len() + 1,
{
    let all = dir_lines(node, text, apparent, itself);
    let rest = lines_below(node, text, apparent, node.children@.len() as int);
    let j = choose|j: int| 0 <= j < all.len() && all[j] == line;
    if itself && j == 0 {
        let none = Seq::<int>::empty();
        assert(below(node, none).is_dir);
        assert(leads_down(node, none));
    } else {
        assert(rest[j - (all.len() - rest.len())] == line);
        lemma_line_below_shows(
            node,
            text,
            apparent,
            node.children@.len() as int,
            line,
        );
        let steps = choose|steps: Seq<int>|
            #![trigger below(node, steps)]
            {
                &&& leads_down(node, steps)
                &&& steps.len() > 0 || false
                &&& below(node, steps).is_dir
                &&& line == shown_line(below(node, steps), shown_path(text, node, steps), apparent)
            };
        assert(below(node, steps).is_dir);
    }
}

proof fn lemma_line_below_shows(
    node: TreeNode,
    text: Seq<char>,
    apparent: bool,
    n: int,
    line: Line,
)
    requires
        lines_below(node, text, apparent, n).contains(line),
    ensures
        shows_directory(line, node, text, apparent, false),
    decreases node, n,
{
    let all = lines_below(node, text, apparent, n);
    let fewer = lines_below(node, text, apparent, n - 1);
    let j = choose|j: int| 0 <= j < all.len() && all[j] == line;
    let child = node.children@[n - 1];
    let next = crate::report::human::text_below(text, utf8_lossy(child.name@));
    let own = dir_lines(child, next, apparent, true);
    if j < fewer.len() {
        assert(fewer[j] == line);
        lemma_line_below_shows(node, text, apparent, n - 1, line);
    } else {
        assert(own[j - fewer.len()] == line);
        lemma_line_shows(child, next, apparent, true, line);
        let steps = choose|steps: Seq<int>|
            #![trigger below(child, steps)]
            {
                &&& leads_down(child, steps)
                &&& steps.len() > 0 || true
                &&& below(child, steps).is_dir
                &&& line == shown_line(below(child, steps), shown_path(next, child, steps), apparent)
            };
        let more = seq![n - 1] + steps;
        assert(more.drop_first() =~= steps);
        let front = if text == seq!['/'] {
            Seq::empty()
        } else {
            text
        };
        assert(front + seq!['/'] + utf8_lossy(child.name@) =~= next);
        assert(leads_down(node, more));
        assert(below(node, more) == below(child, steps));
        assert(shown_path(text, node, more) == shown_path(next, child, steps));
    }
}

/// Nothing but the directories below the roots of the trees is listed.
pub proof fn law_only_directories_are_listed(trees: Seq<TreeNode>, apparent: bool, line: Line)
    requires
        lines_of_trees(trees, apparent).contains(line),
    ensures
        exists|k: int|
            0 <= k < trees.len() && shows_directory(
                line,
                #[trigger] trees[k],
                shown_root(trees[k]),
                apparent,
                false,
            ),
    decreases trees.len(),
{
    let all = lines_of_trees(trees, apparent);
    let fewer = lines_of_trees(trees.drop_last(), apparent);
    let j = choose|j: int| 0 <= j < all.len() && all[j] == line;
    if j < fewer.len() {
        assert(fewer[j] == line);
        law_only_directories_are_listed(trees.drop_last(), apparent, line);
        let k = choose|k: int|
            0 <= k < trees.drop_last().len() && shows_directory(
                line,
                #[trigger] trees.drop_last()[k],
                shown_root(trees.drop_last()[k]),
                apparent,
                false,
            );
        assert(trees[k] == trees.drop_last()[k]);
    } else {
        let root = trees.last();
        let own = dir_lines(root, crate::report::human::root_text(root.name@), apparent, false);
        assert(own[j - fewer.len()] == line);
        lemma_line_shows(root, shown_root(root), apparent, false, line);
        assert(trees[trees.len() - 1] == root);
    }
}

proof fn lemma_line_count(node: TreeNode, text: Seq<char>, apparent: bool, itself: bool)
    requires
        files_are_leaves(node),
    ensures
        dir_lines(node, text, apparent, itself).len() == dir_count_below(
            node,
            node.children@.len() as int,
        ) + if itself && node.is_dir {
            1nat
        } else {
            0
        },
    decreases node, node.children@.len() + 1,
{
    lemma_line_count_below(node, text, apparent, node.children@.len() as int);
}

proof fn lemma_line_count_below(node: TreeNode, text: Seq<char>, apparent: bool, n: int)
    requires
        files_are_leaves(node),
        0 <= n <= node.children@.len(),
    ensures
        lines_below(node, text, apparent, n).len() == dir_count_below(node, n),
    decreases node, n,
{
    if n > 0 {
        let child = node.children@[n - 1];
        lemma_line_count_below(node, text, apparent, n - 1);
        lemma_line_count(
            child,
            crate::report::human::text_below(text, utf8_lossy(child.name@)),
            apparent,
            true,
        );
    }
}

/// There are as many lines as directories below the roots of all the trees.
pub proof fn law_directories_are_listed_once(trees: Seq<TreeNode>, apparent: bool)
    requires
        forall|k: int| 0 <= k < trees.len() ==> files_are_leaves(#[trigger] trees[k]),
    ensures
        lines_of_trees(trees, apparent).len() == dirs_of_trees(trees),
    decreases trees.len(),
{
    if trees.len() > 0 {
        let fewer = trees.drop_last();
        assert forall|k: int| 0 <= k < fewer.len() implies files_are_leaves(#[trigger] fewer[k]) by {
            assert(fewer[k] == trees[k]);
        }
        assert(trees[trees.len() - 1] == trees.last());
        law_directories_are_listed_once(fewer, apparent);
        lemma_line_count(
            trees.last(),
            crate::report::human::root_text(trees.last().name@),
            apparent,
            false,
        );
    }
}

/// Whether a JSON value is an object with a name, an apparent size and a disk
/// usage, and nothing else.
pub open spec fn is_info(item: Json, name: Seq<char>, apparent_size: u64, disk_usage: u64) -> bool {
    &&& item is Object
    &&& forall|field: Seq<char>| #[trigger]
        item->Object_0.contains_key(field) <==> field == "name"@ || field == "asize"@ || field
            == "dsize"@
    &&& item->Object_0["name"@] == Json::Text(name)
    &&& item->Object_0["asize"@] == Json::Number(apparent_size)
    &&& item->Object_0["dsize"@] == Json::Number(disk_usage)
}

proof fn lemma_info(name: Seq<char>, apparent_size: u64, disk_usage: u64)
    ensures
        is_info(
            crate::report::ncdu::info(name, apparent_size, disk_usage),
            name,
            apparent_size,
            disk_usage,
        ),
{
    reveal_strlit("name");
    reveal_strlit("asize");
    reveal_strlit("dsize");
    assert("name"@.len() != "asize"@.len());
    assert("name"@.len() != "dsize"@.len());
    assert("asize"@[0] != "dsize"@[0]);
}

/// The export of a directory, at any depth, is a list: what it is called and
/// its sizes, then the export of each child in turn. That of a file is what it
/// is called and its sizes alone.
pub proof fn law_export_of_a_node(node: TreeNode)
    ensures
        !node.is_dir ==> is_info(
            node_json(node),
            utf8_lossy(node.name@),
            node.apparent_size,
            node.disk_usage,
        ),
        node.is_dir ==> {
            &&& node_json(node) is List
            &&& node_json(node)->List_0.len() == node.children@.len() + 1
            &&& is_info(
                node_json(node)->List_0[0],
                utf8_lossy(node.name@),
                node.apparent_size,
                node.disk_usage,
            )
            &&& forall|i: int|
                0 <= i < node.children@.len() ==> node_json(node)->List_0[i + 1] == node_json(
                    #[trigger] node.children@[i],
                )
        },
{
    lemma_info(utf8_lossy(node.name@), node.apparent_size, node.disk_usage);
}

/// The item of an export that the steps lead to: the first item of a list is
/// about the directory itself, those of its children follow.
pub open spec fn item_below(item: Json, steps: Seq<int>) -> Json
    decreases steps.len(),
{
    if steps.len() == 0 {
        item
    } else {
        item_below(item->List_0[steps[0] + 1], steps.drop_first())
    }
}

/// Whether an item shows a node: that of a directory is a list which starts
/// with its name and sizes and has an item for each child.
pub open spec fn shows_item(item: Json, node: TreeNode) -> bool {
    let own = if node.is_dir {
        item->List_0[0]
    } else {
        item
    };
    &&& node.is_dir ==> item is List && item->List_0.len() == node.children@.len() + 1
    &&& is_info(own, utf8_lossy(node.name@), node.apparent_size, node.disk_usage)
}

/// The export reaches every node, however deep: the steps that lead to it in
/// the tree lead to the item that shows it.
pub proof fn law_export_reaches_every_node(node: TreeNode, steps: Seq<int>)
    requires
        files_are_leaves(node),
        leads_down(node, steps),
    ensures
        shows_item(item_below(node_json(node), steps), below(node, steps)),
    decreases steps.len(),
{
    law_export_of_a_node(node);
    if steps.len() > 0 {
        let child = node.children@[steps[0]];
        law_export_reaches_every_node(child, steps.drop_first());
        assert(node_json(node)->List_0[steps[0] + 1] == node_json(child));
    }
}

/// The number of objects in a JSON value that lie in lists alone.
pub open spec fn object_count(item: Json) -> nat
    decreases item, 0nat,
{
    match item {
        Json::Object(_) => 1,
        Json::List(items) => objects_in(items, items.len() as int),
        _ => 0,
    }
}

/// The number of objects in the first `n` items of a list.
pub open spec fn objects_in(items: Seq<Json>, n: int) -> nat
    decreases items, n,
{
    if n <= 0 || n > items.len() {
        0
    } else {
        objects_in(items, n - 1) + object_count(items[n - 1])
    }
}

/// The export has as many objects with a name and sizes as the tree has nodes.
pub proof fn law_export_has_an_object_per_node(node: TreeNode)
    requires
        files_are_leaves(node),
    ensures
        object_count(node_json(node)) == node_count(node),
    decreases node, node.children@.len() + 1,
{
    law_export_of_a_node(node);
    if node.is_dir {
        let items = node_json(node)->List_0;
        lemma_objects_below(node, node.children@.len() as int);
        assert(object_count(node_json(node)) == objects_in(items, items.len() as int));
    } else {
        assert(node_count_below(node, 0) == 0);
    }
}

proof fn lemma_objects_below(node: TreeNode, n: int)
    requires
        files_are_leaves(node),
        node.is_dir,
        0 <= n <= node.children@.len(),
    ensures
        objects_in(node_json(node)->List_0, n + 1) == 1 + node_count_below(node, n),
    decreases node, n,
{
    law_export_of_a_node(node);
    let items = node_json(node)->List_0;
    if n == 0 {
        assert(objects_in(items, 0) == 0);
        assert(object_count(items[0]) == 1);
    } else {
        lemma_objects_below(node, n - 1);
        assert(items[n - 1 + 1] == node_json(node.children@[n - 1]));
        law_export_has_an_object_per_node(node.children@[n - 1]);
    }
}

/// The export is a list: the version of the format, a header that names the
/// program, its version and the time, and the trees of all the roots in order;
/// without trees, the name of each root and the total of the scan.
pub proof fn law_export_has_all_roots(
    result: ScanResult,
    roots: Seq<Vec<u8>>,
    version: Seq<char>,
    timestamp: u64,
)
    ensures
        ({
            let items = document(result, roots, version, timestamp)->List_0;
            &&& document(result, roots, version, timestamp) is List
            &&& items.len() == 3 + (match result.tree {
                Some(trees) => trees@.len(),
                None => roots.len(),
            })
            &&& items[0] == Json::Number(1)
            &&& items[1] == Json::Number(2)
            &&& items[2] is Object
            &&& items[2]->Object_0["progname"@] == Json::Text("hokori"@)
            &&& items[2]->Object_0["progver"@] == Json::Text(version)
            &&& items[2]->Object_0["timestamp"@] == Json::Number(timestamp)
            &&& forall|field: Seq<char>| #[trigger]
                items[2]->Object_0.contains_key(field) <==> field == "progname"@ || field
                    == "progver"@ || field == "timestamp"@
            &&& result.tree matches Some(trees) ==> forall|k: int|
                0 <= k < trees@.len() ==> items[3 + k] == node_json(#[trigger] trees@[k])
            &&& result.tree is None ==> forall|k: int|
                0 <= k < roots.len() ==> {
                    &&& items[3 + k] is List
                    &&& items[3 + k]->List_0.len() == 1
                    &&& is_info(
                        items[3 + k]->List_0[0],
                        utf8_lossy((#[trigger] roots[k])@),
                        result.total_size,
                        result.total_size,
                    )
                }
        }),
{
    reveal_strlit("progname");
    reveal_strlit("progver");
    reveal_strlit("timestamp");
    assert("progname"@.len() != "progver"@.len());
    assert("progname"@.len() != "timestamp"@.len());
    assert("progver"@.len() != "timestamp"@.len());
    assert forall|k: int| 0 <= k < roots.len() implies is_info(
        crate::report::ncdu::info(
            utf8_lossy((#[trigger] roots[k])@),
            result.total_size,
            result.total_size,
        ),
        utf8_lossy(roots[k]@),
        result.total_size,
        result.total_size,
    ) by {
        lemma_info(utf8_lossy(roots[k]@), result.total_size, result.total_size);
    }
}

/// Whether the steps lead from a node of the JSON output to one at or below it.
pub open spec fn json_leads_down(json: JsonTreeNode, steps: Seq<int>) -> bool
    decreases steps.len(),
{
    steps.len() == 0 || (0 <= steps[0] < json.children@.len() && json_leads_down(
        json.children@[steps[0]],
        steps.drop_first(),
    ))
}

/// The node of the JSON output that the steps lead to.
pub open spec fn json_below(json: JsonTreeNode, steps: Seq<int>) -> JsonTreeNode
    decreases steps.len(),
{
    if steps.len() == 0 {
        json
    } else {
        json_below(json.children@[steps[0]], steps.drop_first())
    }
}

/// Whether a node of the JSON output shows the name and all the numbers of a
/// node, and has as many children.
pub open spec fn shows_fields(shown: JsonTreeNode, node: TreeNode) -> bool {
    &&& shown.name@ == utf8_lossy(node.name@)
    &&& shown.apparent_size == node.apparent_size
    &&& shown.disk_usage == node.disk_usage
    &&& shown.file_count == node.file_count
    &&& shown.dir_count == node.dir_count
    &&& shown.is_dir == node.is_dir
    &&& shown.depth == node.depth
    &&& shown.children@.len() == node.children@.len()
}

/// The JSON output has every node of a tree at its place, and no other, with
/// its name and all its numbers.
pub proof fn law_json_has_every_node(json: JsonTreeNode, node: TreeNode, steps: Seq<int>)
    requires
        shows_node(json, node),
    ensures
        json_leads_down(json, steps) == leads_down(node, steps),
        leads_down(node, steps) ==> shows_fields(json_below(json, steps), below(node, steps)),
    decreases steps.len(),
{
    if steps.len() > 0 && 0 <= steps[0] < node.children@.len() {
        assert(shows_node(json.children@[steps[0]], node.children@[steps[0]]));
        law_json_has_every_node(
            json.children@[steps[0]],
            node.children@[steps[0]],
            steps.drop_first(),
        );
    }
}

/// Whether the JSON output has the totals of the scan, and the roots and the
/// trees in their order.
pub open spec fn has_totals(json: JsonOutput, result: ScanResult) -> bool {
    &&& json.total_size == result.total_size
    &&& json.file_count == result.file_count
    &&& json.dir_count == result.dir_count
    &&& json.error_count == result.error_count
    &&& json.deduped_count == result.deduped_count
    &&& json.roots@.len() == result.roots@.len()
    &&& forall|k: int|
        0 <= k < result.roots@.len() ==> {
            &&& (#[trigger] json.roots@[k]).path@ == utf8_lossy(result.roots@[k].path@)
            &&& json.roots@[k].total_size == result.roots@[k].total_size
            &&& json.roots@[k].file_count == result.roots@[k].file_count
            &&& json.roots@[k].dir_count == result.roots@[k].dir_count
        }
    &&& json.tree is Some == result.tree is Some
    &&& result.tree matches Some(trees) ==> {
        &&& json.tree->Some_0@.len() == trees@.len()
        &&& forall|k: int|
            0 <= k < trees@.len() ==> shows_node(#[trigger] json.tree->Some_0@[k], trees@[k])
    }
}

/// Whatever shows a scan has its totals, and its roots and trees in order.
pub proof fn law_json_has_the_totals(json: JsonOutput, result: ScanResult)
    requires
        shows_result(json, result),
    ensures
        has_totals(json, result),
{
}

/// Whether `a` stands before `b` or is `b` in the order of byte strings: at the
/// first place where they differ, `a` has ended or has the smaller byte.
pub open spec fn is_not_after(a: Seq<u8>, b: Seq<u8>) -> bool {
    exists|k: int|
        #![trigger a.take(k)]
        {
            &&& 0 <= k <= a.len()
            &&& k <= b.len()
            &&& a.take(k) == b.take(k)
            &&& k == a.len() || (k < b.len() && a[k] < b[k])
        }
}

proof fn lemma_not_after(a: Seq<u8>, b: Seq<u8>, k: int)
    requires
        0 <= k <= a.len(),
        k <= b.len(),
        a.take(k) == b.take(k),
        bytes_in_order(a, b, k),
    ensures
        is_not_after(a, b),
    decreases a.len() - k,
{
    if k < a.len() && k < b.len() && a[k] == b[k] {
        assert(a.take(k + 1) =~= a.take(k).push(a[k]));
        assert(b.take(k + 1) =~= b.take(k).push(b[k]));
        lemma_not_after(a, b, k + 1);
    }
}

/// Whether `listed` are the largest of the lines: those at `at`, none of them
/// twice, and none of the others is larger than any of them.
pub open spec fn are_largest(listed: Seq<Line>, all: Seq<Line>, at: Seq<int>) -> bool {
    &&& listed.len() == at.len()
    &&& at.no_duplicates()
    &&& forall|i: int|
        0 <= i < at.len() ==> 0 <= #[trigger] at[i] < all.len() && listed[i] == all[at[i]]
    &&& forall|i: int, j: int|
        #![trigger listed[i], all[j]]
        0 <= i < listed.len() && 0 <= j < all.len() && !at.contains(j) ==> all[j].size
            <= listed[i].size
}

/// Whether the lines stand in order: the largest first, and those of one size in
/// the order of their paths.
pub open spec fn are_in_order(listed: Seq<Line>) -> bool {
    forall|i: int, j: int|
        #![trigger listed[i], listed[j]]
        0 <= i < j < listed.len() ==> {
            ||| listed[i].size > listed[j].size
            ||| {
                &&& listed[i].size == listed[j].size
                &&& is_not_after(encode_utf8(listed[i].path), encode_utf8(listed[j].path))
            }
        }
}

/// Whether `listed` are the `n` largest of the lines, or all where there are
/// fewer, in order.
pub open spec fn is_top_of(listed: Seq<Line>, all: Seq<Line>, n: nat) -> bool {
    &&& listed.len() == (if n < all.len() {
        n
    } else {
        all.len()
    })
    &&& exists|at: Seq<int>| are_largest(listed, all, at)
    &&& are_in_order(listed)
}

proof fn lemma_first_are_top(all: Seq<Line>, order: Seq<usize>, n: nat)
    requires
        is_ranking(all, order),
    ensures
        is_top_of(first_lines(all, order, n), all, n),
{
    let listed = first_lines(all, order, n);
    crate::report::ranking::lemma_no_more_than(order, usize::MAX as nat + 1);
    let at = Seq::new(listed.len(), |i: int| order[i] as int);
    assert forall|i: int| 0 <= i < at.len() implies 0 <= #[trigger] at[i] < all.len() && listed[i]
        == all[at[i]] by {
        assert(order[i] < all.len());
    }
    assert forall|i: int, j: int|
        #![trigger listed[i], all[j]]
        0 <= i < listed.len() && 0 <= j < all.len() && !at.contains(j) implies all[j].size
        <= listed[i].size by {
        crate::report::ranking::lemma_ranking_holds_all(all, order, j as usize);
        let l = choose|l: int| 0 <= l < order.len() && order[l] == j as usize;
        if l < at.len() {
            assert(at[l] == j);
        }
        assert(in_order(all[order[i] as int], all[order[l] as int]));
    }
    assert(are_largest(listed, all, at));
    assert forall|i: int, j: int|
        #![trigger listed[i], listed[j]]
        0 <= i < j < listed.len() implies {
        ||| listed[i].size > listed[j].size
        ||| {
            &&& listed[i].size == listed[j].size
            &&& is_not_after(encode_utf8(listed[i].path), encode_utf8(listed[j].path))
        }
    } by {
        assert(in_order(all[order[i] as int], all[order[j] as int]));
        let a = encode_utf8(listed[i].path);
        let b = encode_utf8(listed[j].path);
        if listed[i].size <= listed[j].size {
            assert(a.take(0) =~= b.take(0));
            lemma_not_after(a, b, 0);
        }
    }
}

/// The largest directories of all the trees are listed, the largest first, and
/// those of one size in the order of their paths: as many as were asked for, or
/// all that there are.
pub proof fn law_top_lists_the_largest(
    listed: Seq<Line>,
    trees: Seq<TreeNode>,
    apparent: bool,
    n: nat,
)
    requires
        is_top(listed, trees, apparent, n),
    ensures
        is_top_of(listed, lines_of_trees(trees, apparent), n),
{
    let all = lines_of_trees(trees, apparent);
    let order = choose|order: Seq<usize>|
        #![trigger is_ranking(all, order)]
        is_ranking(all, order) && listed == first_lines(all, order, n);
    assert(is_ranking(all, order));
    lemma_first_are_top(all, order, n);
}

/// [`top_dirs`] picks the largest lines of its list, in order.
pub proof fn law_top_dirs_picks_the_largest(list: &Vec<DirLine>, n: usize, top: Vec<DirLine>)
    requires
        call_ensures(top_dirs, (list, n), top),
    ensures
        is_top_of(shown_lines(top@), shown_lines(list@), n as nat),
{
    let all = crate::report::human::lines(list@);
    let order = choose|order: Seq<usize>|
        #![trigger is_ranking(all, order)]
        is_ranking(all, order) && crate::report::human::lines(top@) == first_lines(
            all,
            order,
            n as nat,
        );
    assert(is_ranking(all, order));
    lemma_first_are_top(all, order, n as nat);
    assert(shown_lines(list@) =~= all);
    assert(shown_lines(top@) =~= crate::report::human::lines(top@));
}

/// The sizes and paths of a list of directories.
pub open spec fn shown_lines(list: Seq<DirLine>) -> Seq<Line> {
    Seq::new(list.len(), |i: int| Line { size: list[i].size, path: list[i].path@ })
}

/// [`list_dirs`] lists every directory below the root of each of the trees, once
/// and with its size and its path, and nothing else.
pub proof fn law_list_dirs_lists_all_directories(
    trees: &Vec<TreeNode>,
    apparent: bool,
    out: Vec<DirLine>,
)
    requires
        call_ensures(list_dirs, (trees, apparent), out),
        forall|k: int| 0 <= k < trees@.len() ==> files_are_leaves(#[trigger] trees@[k]),
    ensures
        out@.len() == dirs_of_trees(trees@),
        forall|k: int, steps: Seq<int>|
            #![trigger below(trees@[k], steps)]
            0 <= k < trees@.len() && leads_down(trees@[k], steps) && steps.len() > 0 && below(
                trees@[k],
                steps,
            ).is_dir ==> shown_lines(out@).contains(
                shown_line(
                    below(trees@[k], steps),
                    shown_path(shown_root(trees@[k]), trees@[k], steps),
                    apparent,
                ),
            ),
        forall|j: int|
            #![trigger shown_lines(out@)[j]]
            0 <= j < out@.len() ==> exists|k: int|
                0 <= k < trees@.len() && shows_directory(
                    shown_lines(out@)[j],
                    #[trigger] trees@[k],
                    shown_root(trees@[k]),
                    apparent,
                    false,
                ),
{
    assert(shown_lines(out@) =~= lines_of_trees(trees@, apparent));
    law_directories_are_listed_once(trees@, apparent);
    assert forall|k: int, steps: Seq<int>|
        #![trigger below(trees@[k], steps)]
        0 <= k < trees@.len() && leads_down(trees@[k], steps) && steps.len() > 0 && below(
            trees@[k],
            steps,
        ).is_dir implies shown_lines(out@).contains(
        shown_line(
            below(trees@[k], steps),
            shown_path(shown_root(trees@[k]), trees@[k], steps),
            apparent,
        ),
    ) by {
        law_every_directory_is_listed(trees@, apparent, k, steps);
    }
    assert forall|j: int|
        #![trigger shown_lines(out@)[j]]
        0 <= j < out@.len() implies exists|k: int|
        0 <= k < trees@.len() && shows_directory(
            shown_lines(out@)[j],
            #[trigger] trees@[k],
            shown_root(trees@[k]),
            apparent,
            false,
        ) by {
        assert(lines_of_trees(trees@, apparent).contains(shown_lines(out@)[j]));
        law_only_directories_are_listed(trees@, apparent, shown_lines(out@)[j]);
    }
}

/// The report for people has the total of the scan and its counts of files and
/// directories; the roots, if there are several, each with its total; the
/// largest directories of all the trees, if some were asked for and there are
/// trees; the first ten errors, and the number of the others.
pub proof fn law_report_shows_the_scan(
    result: &ScanResult,
    errors: &Vec<WalkError>,
    top: Option<usize>,
    apparent: bool,
    report: HumanReport,
)
    requires
        call_ensures(crate::report::human::render, (result, errors, top, apparent), report),
    ensures
        report.total_size == result.total_size,
        is_written_count(report.files@, result.file_count as int),
        is_written_count(report.dirs@, result.dir_count as int),
        result.roots@.len() <= 1 ==> report.roots@.len() == 0,
        result.roots@.len() > 1 ==> {
            &&& report.roots@.len() == result.roots@.len()
            &&& forall|k: int|
                0 <= k < result.roots@.len() ==> {
                    &&& (#[trigger] report.roots@[k]).size == result.roots@[k].total_size
                    &&& report.roots@[k].path@ == utf8_lossy(result.roots@[k].path@)
                }
        },
        top is None || top == Some(0usize) || result.tree is None ==> report.top is None,
        top matches Some(n) ==> n > 0 ==> (result.tree matches Some(trees) ==> {
            &&& report.top is Some
            &&& is_top_of(
                shown_lines(report.top->Some_0@),
                lines_of_trees(trees@, apparent),
                n as nat,
            )
        }),
        errors@.len() <= 10 ==> report.errors@.len() == errors@.len() && report.more_errors == 0,
        errors@.len() > 10 ==> report.errors@.len() == 10 && report.more_errors == errors@.len()
            - 10,
        forall|i: int|
            0 <= i < report.errors@.len() ==> names_error(
                (#[trigger] report.errors@[i])@,
                errors@[i],
            ),
{
    lemma_grouped_is_written(result.file_count as int);
    lemma_grouped_is_written(result.dir_count as int);
    assert forall|i: int| 0 <= i < report.errors@.len() implies names_error(
        (#[trigger] report.errors@[i])@,
        errors@[i],
    ) by {
        lemma_failure_text(errors@[i]);
    }
    let roots = crate::report::human::lines(report.roots@);
    assert(roots.len() == report.roots@.len());
    if result.roots@.len() > 1 {
        assert forall|k: int| 0 <= k < result.roots@.len() implies {
            &&& (#[trigger] report.roots@[k]).size == result.roots@[k].total_size
            &&& report.roots@[k].path@ == utf8_lossy(result.roots@[k].path@)
        } by {
            assert(roots[k] == report.roots@[k]@);
            assert(root_lines(result.roots@)[k] == roots[k]);
        }
    }
    if report.top is Some {
        let listed = report.top->Some_0@;
        law_top_lists_the_largest(
            crate::report::human::lines(listed),
            result.tree->Some_0@,
            apparent,
            top->Some_0 as nat,
        );
        assert(shown_lines(listed) =~= crate::report::human::lines(listed));
    }
}

/// The export is the text of a list that has the export of every tree; without
/// trees, one entry for each root that was scanned.
pub proof fn law_export_is_written(
    result: &ScanResult,
    roots: &Vec<Vec<u8>>,
    version: String,
    timestamp: u64,
    line: String,
)
    requires
        call_ensures(crate::report::ncdu::render, (result, roots, version, timestamp), line),
    ensures
        line@ == json_text(document(*result, roots@, version@, timestamp)),
{
}

/// [`tree_to_json_nodes`] has every node of a tree at its place, and no other.
pub proof fn law_json_nodes_show_the_tree(
    node: &TreeNode,
    json: JsonTreeNode,
    steps: Seq<int>,
)
    requires
        call_ensures(tree_to_json_nodes, (node,), json),
    ensures
        json_leads_down(json, steps) == leads_down(*node, steps),
        leads_down(*node, steps) ==> shows_fields(json_below(json, steps), below(*node, steps)),
{
    law_json_has_every_node(json, *node, steps);
}

/// The JSON output shows the scan: its totals, its roots and its trees.
pub proof fn law_json_shows_the_scan(result: &ScanResult, json: JsonOutput)
    requires
        call_ensures(crate::report::json::render, (result,), json),
    ensures
        has_totals(json, *result),
{
    law_json_has_the_totals(json, *result);
}

/// The line of the total gives the files and the directories.
pub proof fn law_total_line_gives_the_counts(report: &HumanReport, line: String)
    requires
        call_ensures(HumanReport::write_total_line, (report,), line),
    ensures
        line@ == "total ("@ + report.files@ + " files, "@ + report.dirs@ + " dirs)"@,
{
}

/// The line above the largest directories gives their number.
pub proof fn law_top_line_gives_the_number(n: usize, line: String)
    requires
        call_ensures(write_top_line, (n,), line),
    ensures
        exists|digits: Seq<char>|
            {
                &&& is_plain_number(digits)
                &&& digits_value(digits) == n
                &&& line@ == #[trigger] ("Top "@ + digits) + " directories:"@
            },
{
    lemma_decimal_reads_back(n as int);
    let digits = crate::report::numbers::decimal(n as int);
    assert(line@ == ("Top "@ + digits) + " directories:"@);
}

/// Every error that is listed has a line, and one more line gives the number of
/// those that are not, if there are any.
pub proof fn law_error_lines_give_all_errors(report: &HumanReport, out: Vec<String>)
    requires
        call_ensures(HumanReport::write_error_lines, (report,), out),
    ensures
        report.more_errors == 0 ==> out@.len() == report.errors@.len(),
        report.more_errors > 0 ==> out@.len() == report.errors@.len() + 1,
        forall|i: int|
            0 <= i < report.errors@.len() ==> (#[trigger] out@[i])@ == "error: "@
                + report.errors@[i]@,
        report.more_errors > 0 ==> exists|digits: Seq<char>|
            {
                &&& is_plain_number(digits)
                &&& digits_value(digits) == report.more_errors
                &&& out@.last()@ == #[trigger] ("... and "@ + digits) + " more errors"@
            },
{
    lemma_decimal_reads_back(report.more_errors as int);
    let digits = crate::report::numbers::decimal(report.more_errors as int);
    if report.more_errors > 0 {
        assert(out@.last()@ == ("... and "@ + digits) + " more errors"@);
    }
}

/// The line between the roots and the total is made of 40 strokes.
pub proof fn law_rule_is_a_line(line: String)
    requires
        call_ensures(rule_line, (), line),
    ensures
        line@.len() == 40,
        forall|i: int| 0 <= i < line@.len() ==> line@[i] == '─',
{
}

/// An export without trees is noted, and no other.
pub proof fn law_missing_trees_are_noted(result: &ScanResult, note: Option<String>)
    requires
        call_ensures(missing_tree_note, (result,), note),
    ensures
        note is None <==> result.tree is Some,
        note is Some ==> note->Some_0@ == "note: full ncdu tree export requires --build-tree"@,
{
}

} // verus!
