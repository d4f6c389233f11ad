//! The report for programs: the fields of the JSON output.
use crate::scan::aggregator::{RootResult, ScanResult};
use crate::scan::tree::TreeNode;
use crate::text::{lossy, utf8_lossy};
use vstd::prelude::*;

verus! {

#[derive(Debug)]
pub struct JsonOutput {
    pub total_size: u64,
    pub file_count: u64,
    pub dir_count: u64,
    pub error_count: u64,
    pub deduped_count: u64,
    pub roots: Vec<JsonRoot>,
    /// Left out of the output where it is `None`.
    pub tree: Option<Vec<JsonTreeNode>>,
}

#[derive(Debug)]
pub struct JsonRoot {
    pub path: String,
    pub total_size: u64,
    pub file_count: u64,
    pub dir_count: u64,
}

#[derive(Debug)]
pub struct JsonTreeNode {
    pub name: String,
    pub apparent_size: u64,
    pub disk_usage: u64,
    pub file_count: u64,
    pub dir_count: u64,
    pub is_dir: bool,
    pub depth: u16,
    pub children: Vec<JsonTreeNode>,
}

/// Whether `json` says what the root says.
pub open spec fn shows_root(json: JsonRoot, root: RootResult) -> bool {
    &&& json.path@ == utf8_lossy(root.path@)
    &&& json.total_size == root.total_size
    &&& json.file_count == root.file_count
    &&& json.dir_count == root.dir_count
}

/// Whether `json` says what the node and those below it say.
pub open spec fn shows_node(json: JsonTreeNode, node: TreeNode) -> bool
    decreases node,
{
    &&& json.name@ == utf8_lossy(node.name@)
    &&& json.apparent_size == node.apparent_size
    &&& json.disk_usage == node.disk_usage
    &&& json.file_count == node.file_count
    &&& json.dir_count == node.dir_count
    &&& json.is_dir == node.is_dir
    &&& json.depth == node.depth
    &&& json.children@.len() == node.children@.len()
    &&& forall|i: int|
        0 <= i < node.children@.len() ==> shows_node(json.children@[i], #[trigger] node.children@[i])
}

/// Whether `json` says what the nodes say, in order.
pub open spec fn shows_nodes(json: Seq<JsonTreeNode>, nodes: Seq<TreeNode>) -> bool {
    &&& json.len() == nodes.len()
    &&& forall|i: int| 0 <= i < nodes.len() ==> shows_node(#[trigger] json[i], nodes[i])
}

/// Whether `json` says what the result says.
pub open spec fn shows_result(json: JsonOutput, result: ScanResult) -> bool {
    &&& json.total_size == result.total_size
    &&& json.file_count == result.file_count
    &&& json.dir_count == result.dir_count
    &&& json.error_count == result.error_count
    &&& json.deduped_count == result.deduped_count
    &&& json.roots@.len() == result.roots@.len()
    &&& forall|i: int|
        0 <= i < result.roots@.len() ==> shows_root(#[trigger] json.roots@[i], result.roots@[i])
    &&& match result.tree {
        Some(trees) => json.tree is Some && shows_nodes(json.tree->Some_0@, trees@),
        None => json.tree is None,
    }
}

/// The JSON fields of a node and those below it.
pub fn tree_to_json_nodes(node: &TreeNode) -> (json: JsonTreeNode)
    ensures
        shows_node(json, *node),
    decreases node,
{
    let mut children: Vec<JsonTreeNode> = Vec::new();
    let mut i: usize = 0;
    while i < node.children.len()
        invariant
            i <= node.children@.len(),
            children@.len() == i,
            forall|j: int|
                0 <= j < i ==> shows_node(#[trigger] children@[j], node.children@[j]),
        decreases node.children@.len() - i,
    {
        children.push(tree_to_json_nodes(&node.children[i]));
        i = i + 1;
    }
    let json = JsonTreeNode {
        name: lossy(node.name.as_slice()),
        apparent_size: node.apparent_size,
        disk_usage: node.disk_usage,
        file_count: node.file_count,
        dir_count: node.dir_count,
        is_dir: node.is_dir,
        depth: node.depth,
        children,
    };
    assert forall|j: int| 0 <= j < node.children@.len() implies shows_node(
        json.children@[j],
        #[trigger] node.children@[j],
    ) by {
        assert(shows_node(children@[j], node.children@[j]));
    }
    json
}

/// The JSON fields of a result.
pub fn render(result: &ScanResult) -> (json: JsonOutput)
    ensures
        shows_result(json, *result),
{
    let mut roots: Vec<JsonRoot> = Vec::new();
    let mut i: usize = 0;
    while i < result.roots.len()
        invariant
            i <= result.roots@.len(),
            roots@.len() == i,
            forall|j: int| 0 <= j < i ==> shows_root(#[trigger] roots@[j], result.roots@[j]),
        decreases result.roots@.len() - i,
    {
        let root = &result.roots[i];
        roots.push(
            JsonRoot {
                path: lossy(root.path.as_slice()),
                total_size: root.total_size,
                file_count: root.file_count,
                dir_count: root.dir_count,
            },
        );
        i = i + 1;
    }
    let tree = match &result.tree {
        Some(trees) => {
            let mut nodes: Vec<JsonTreeNode> = Vec::new();
            let mut k: usize = 0;
            while k < trees.len()
                invariant
                    k <= trees@.len(),
                    nodes@.len() == k,
                    forall|j: int| 0 <= j < k ==> shows_node(#[trigger] nodes@[j], trees@[j]),
                decreases trees@.len() - k,
            {
                nodes.push(tree_to_json_nodes(&trees[k]));
                k = k + 1;
            }
            Some(nodes)
        },
        None => None,
    };
    JsonOutput {
        total_size: result.total_size,
        file_count: result.file_count,
        dir_count: result.dir_count,
        error_count: result.error_count,
        deduped_count: result.deduped_count,
        roots,
        tree,
    }
}

} // verus!
