//! The export for ncdu: a JSON list of a version, a header and the trees.
use crate::scan::aggregator::ScanResult;
use crate::scan::tree::TreeNode;
use crate::text::{lossy, utf8_lossy};
use vstd::prelude::*;

verus! {

/// What a JSON value says.
#[verifier::ext_equal]
pub enum Json {
    Number(u64),
    Text(Seq<char>),
    List(Seq<Json>),
    Object(Map<Seq<char>, Json>),
    /// Anything else, by its text.
    Other(Seq<char>),
}

/// A JSON value of `serde_json`.
#[verifier::external_type_specification]
#[verifier::external_body]
pub struct ExValue(serde_json::Value);

/// The fields of a JSON object of `serde_json`.
#[verifier::external_type_specification]
#[verifier::external_body]
#[verifier::reject_recursive_types(K)]
#[verifier::reject_recursive_types(V)]
pub struct ExMap<K, V>(serde_json::Map<K, V>);

/// What a value of `serde_json` says.
pub uninterp spec fn json(value: serde_json::Value) -> Json;

/// What the fields of an object say, by their names.
pub uninterp spec fn fields(map: serde_json::Map<String, serde_json::Value>) -> Map<
    Seq<char>,
    Json,
>;

/// The text that `serde_json::to_string` makes of a value.
pub uninterp spec fn json_text(value: Json) -> Seq<char>;

/// Calls `serde_json::Value::from` on an integer: the value is that number.
#[verifier::external_body]
fn number(n: u64) -> (value: serde_json::Value)
    ensures
        json(value) == Json::Number(n),
{
    serde_json::Value::from(n)
}

/// Calls `serde_json::Value::from` on a string: the value is that text.
#[verifier::external_body]
fn text(s: String) -> (value: serde_json::Value)
    ensures
        json(value) == Json::Text(s@),
{
    serde_json::Value::from(s)
}

/// Makes a `serde_json::Value::Array`: the value is a list of the items.
#[verifier::external_body]
fn list(items: Vec<serde_json::Value>) -> (value: serde_json::Value)
    ensures
        json(value) == Json::List(items@.map_values(|item: serde_json::Value| json(item))),
{
    serde_json::Value::Array(items)
}

/// Calls `serde_json::Map::new`: there are no fields.
#[verifier::external_body]
fn no_fields() -> (map: serde_json::Map<String, serde_json::Value>)
    ensures
        fields(map).dom() == Set::<Seq<char>>::empty(),
{
    serde_json::Map::new()
}

/// Calls `insert` on a `serde_json::Map`: the field has the value afterwards,
/// and the other fields are as they were.
#[verifier::external_body]
fn set_field(
    map: &mut serde_json::Map<String, serde_json::Value>,
    name: String,
    value: serde_json::Value,
)
    ensures
        fields(*final(map)) == fields(*old(map)).insert(name@, json(value)),
{
    map.insert(name, value);
}

/// Makes a `serde_json::Value::Object`: the value has the fields.
#[verifier::external_body]
fn object(map: serde_json::Map<String, serde_json::Value>) -> (value: serde_json::Value)
    ensures
        json(value) == Json::Object(fields(map)),
{
    serde_json::Value::Object(map)
}

/// Calls `serde_json::to_string` on a value. The text depends on what the value
/// says alone; how it is laid out is left to the function. The call fails on
/// no value.
#[verifier::external_body]
fn write_json(value: &serde_json::Value) -> (text: String)
    ensures
        text@ == json_text(json(*value)),
{
    serde_json::to_string(value).unwrap()
}

/// What the export says of a file or directory: its name, its apparent size
/// and its disk usage.
pub open spec fn info(name: Seq<char>, apparent_size: u64, disk_usage: u64) -> Json {
    Json::Object(
        Map::<Seq<char>, Json>::empty().insert("name"@, Json::Text(name)).insert(
            "asize"@,
            Json::Number(apparent_size),
        ).insert("dsize"@, Json::Number(disk_usage)),
    )
}

/// What the export says of a node: for a file its info; for a directory a list
/// of its info and of what it says of each child.
pub open spec fn node_json(node: TreeNode) -> Json
    decreases node,
{
    let own = info(utf8_lossy(node.name@), node.apparent_size, node.disk_usage);
    if node.is_dir {
        Json::List(
            seq![own] + Seq::new(
                node.children@.len(),
                |i: int|
                    if 0 <= i < node.children@.len() {
                        node_json(node.children@[i])
                    } else {
                        own
                    },
            ),
        )
    } else {
        own
    }
}

/// The header of the export.
pub open spec fn header(version: Seq<char>, timestamp: u64) -> Json {
    Json::Object(
        Map::<Seq<char>, Json>::empty().insert("progname"@, Json::Text("hokori"@)).insert(
            "progver"@,
            Json::Text(version),
        ).insert("timestamp"@, Json::Number(timestamp)),
    )
}

/// What the export says of the roots: their trees; without these, the name of
/// each root and the total.
pub open spec fn roots_json(result: ScanResult, roots: Seq<Vec<u8>>) -> Seq<Json> {
    match result.tree {
        Some(trees) => trees@.map_values(|node: TreeNode| node_json(node)),
        None => roots.map_values(
            |root: Vec<u8>|
                Json::List(seq![info(utf8_lossy(root@), result.total_size, result.total_size)]),
        ),
    }
}

/// The export.
pub open spec fn document(
    result: ScanResult,
    roots: Seq<Vec<u8>>,
    version: Seq<char>,
    timestamp: u64,
) -> Json {
    Json::List(
        seq![Json::Number(1), Json::Number(2), header(version, timestamp)] + roots_json(
            result,
            roots,
        ),
    )
}

/// What the items of a list say.
spec fn jsons(items: Seq<serde_json::Value>) -> Seq<Json> {
    items.map_values(|item: serde_json::Value| json(item))
}

fn node_info(name: String, apparent_size: u64, disk_usage: u64) -> (value: serde_json::Value)
    ensures
        json(value) == info(name@, apparent_size, disk_usage),
{
    let mut map = no_fields();
    assert(fields(map) =~= Map::<Seq<char>, Json>::empty());
    set_field(&mut map, String::from_str("name"), text(name));
    set_field(&mut map, String::from_str("asize"), number(apparent_size));
    set_field(&mut map, String::from_str("dsize"), number(disk_usage));
    object(map)
}

fn node_to_value(node: &TreeNode) -> (value: serde_json::Value)
    ensures
        json(value) == node_json(*node),
    decreases node,
{
    let own = node_info(lossy(node.name.as_slice()), node.apparent_size, node.disk_usage);
    if node.is_dir {
        let mut items: Vec<serde_json::Value> = Vec::new();
        items.push(own);
        let mut i: usize = 0;
        while i < node.children.len()
            invariant
                i <= node.children@.len(),
                items@.len() == i + 1,
                json(items@[0]) == json(own),
                forall|j: int|
                    1 <= j <= i ==> json(#[trigger] items@[j]) == node_json(node.children@[j - 1]),
            decreases node.children@.len() - i,
        {
            items.push(node_to_value(&node.children[i]));
            i = i + 1;
        }
        let value = list(items);
        assert(node_json(*node) is List);
        assert(json(value)->List_0 =~= node_json(*node)->List_0);
        value
    } else {
        own
    }
}

/// What to tell people whose export holds no trees.
pub fn missing_tree_note(result: &ScanResult) -> (note: Option<String>)
    ensures
        note is Some <==> result.tree is None,
        note matches Some(text) ==> text@
            == "note: full ncdu tree export requires --build-tree"@,
{
    match &result.tree {
        Some(_) => None,
        None => Some(String::from_str("note: full ncdu tree export requires --build-tree")),
    }
}

/// The text of the export, for the trees of a scan or, without these, for the
/// roots that were scanned.
pub fn render(
    result: &ScanResult,
    roots: &Vec<Vec<u8>>,
    version: String,
    timestamp: u64,
) -> (line: String)
    ensures
        line@ == json_text(document(*result, roots@, version@, timestamp)),
{
    let mut output: Vec<serde_json::Value> = Vec::new();
    output.push(number(1));
    output.push(number(2));
    let mut map = no_fields();
    assert(fields(map) =~= Map::<Seq<char>, Json>::empty());
    set_field(&mut map, String::from_str("progname"), text(String::from_str("hokori")));
    set_field(&mut map, String::from_str("progver"), text(version));
    set_field(&mut map, String::from_str("timestamp"), number(timestamp));
    output.push(object(map));
    let ghost front = seq![Json::Number(1), Json::Number(2), header(version@, timestamp)];
    assert(jsons(output@) =~= front);
    let ghost said = roots_json(*result, roots@);
    let mut i: usize = 0;
    match &result.tree {
        Some(trees) => {
            assert(jsons(output@) =~= front + said.take(0));
            while i < trees.len()
                invariant
                    i <= trees@.len(),
                    said == trees@.map_values(|node: TreeNode| node_json(node)),
                    jsons(output@) == front + said.take(i as int),
                decreases trees@.len() - i,
            {
                let ghost before = output@;
                output.push(node_to_value(&trees[i]));
                i = i + 1;
                assert(jsons(output@) =~= jsons(before).push(said[i - 1]));
                assert(jsons(output@) =~= front + said.take(i as int));
            }
        },
        None => {
            assert(jsons(output@) =~= front + said.take(0));
            while i < roots.len()
                invariant
                    i <= roots@.len(),
                    said == roots@.map_values(
                        |root: Vec<u8>|
                            Json::List(
                                seq![
                                    info(utf8_lossy(root@), result.total_size, result.total_size),
                                ],
                            ),
                    ),
                    jsons(output@) == front + said.take(i as int),
                decreases roots@.len() - i,
            {
                let ghost before = output@;
                let mut items: Vec<serde_json::Value> = Vec::new();
                items.push(
                    node_info(lossy(roots[i].as_slice()), result.total_size, result.total_size),
                );
                let ghost listed = items@.map_values(|item: serde_json::Value| json(item));
                output.push(list(items));
                i = i + 1;
                proof {
                    assert(listed =~= said[i - 1]->List_0);
                    assert(jsons(output@) =~= jsons(before).push(said[i - 1]));
                    assert(jsons(output@) =~= front + said.take(i as int));
                }
            }
        },
    }
    proof {
        assert(said.take(i as int) =~= said);
    }
    write_json(&list(output))
}

} // verus!
