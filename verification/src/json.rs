//! JSON values as trees, and the reading and writing of JSON text, which is
//! left to `serde_json`.
use serde_json::Value;
use vstd::prelude::*;

verus! {

/// A JSON value, as a mathematical value.
pub enum JsonTree {
    Null,
    Bool(bool),
    /// A number, with its value where it is a whole number from 0 to
    /// 2^64 - 1.
    Number(Option<u64>),
    Text(Seq<char>),
    List(Seq<JsonTree>),
    /// The members of an object, each a key with its value.
    Object(Seq<(Seq<char>, JsonTree)>),
}

/// One member of a JSON object.
#[derive(PartialEq, Eq, Debug)]
pub struct Member {
    pub key: String,
    pub value: JsonNode,
}

/// A JSON value.
#[derive(PartialEq, Eq, Debug)]
pub enum JsonNode {
    Null,
    Bool(bool),
    /// A number, with its value where it is a whole number from 0 to
    /// 2^64 - 1. A number without a value is written as `null`.
    Number(Option<u64>),
    Text(String),
    List(Vec<JsonNode>),
    Object(Vec<Member>),
}

impl View for JsonNode {
    type V = JsonTree;

    open spec fn view(&self) -> JsonTree
        decreases self,
    {
        match self {
            JsonNode::Null => JsonTree::Null,
            JsonNode::Bool(b) => JsonTree::Bool(*b),
            JsonNode::Number(n) => JsonTree::Number(*n),
            JsonNode::Text(s) => JsonTree::Text(s@),
            JsonNode::List(items) => JsonTree::List(
                Seq::new(
                    items@.len(),
                    |i: int|
                        if 0 <= i < items@.len() {
                            items@[i]@
                        } else {
                            JsonTree::Null
                        },
                ),
            ),
            JsonNode::Object(members) => JsonTree::Object(
                Seq::new(
                    members@.len(),
                    |i: int|
                        if 0 <= i < members@.len() {
                            (members@[i].key@, members@[i].value@)
                        } else {
                            (Seq::empty(), JsonTree::Null)
                        },
                ),
            ),
        }
    }
}

/// The members of an object node, each as a pair of views.
pub open spec fn member_views(members: Seq<Member>) -> Seq<(Seq<char>, JsonTree)> {
    Seq::new(members.len(), |i: int| (members[i].key@, members[i].value@))
}

/// The views of the items of a list node.
pub open spec fn item_views(items: Seq<JsonNode>) -> Seq<JsonTree> {
    Seq::new(items.len(), |i: int| items[i]@)
}

/// The view of an object node is the object of its members' views.
pub proof fn lemma_object_view(members: Vec<Member>)
    ensures
        JsonNode::Object(members)@ == JsonTree::Object(member_views(members@)),
{
    reveal_with_fuel(<JsonNode as View>::view, 2);
    assert(JsonNode::Object(members)@->Object_0 =~= member_views(members@));
}

/// The view of a list node is the list of its items' views.
pub proof fn lemma_list_view(items: Vec<JsonNode>)
    ensures
        JsonNode::List(items)@ == JsonTree::List(item_views(items@)),
{
    reveal_with_fuel(<JsonNode as View>::view, 2);
    assert(JsonNode::List(items)@->List_0 =~= item_views(items@));
}

/// Where in a text the reading of JSON gave up: line and column, both
/// counted from one.
#[derive(Clone, Copy, PartialEq, Eq, Structural, Debug)]
pub struct JsonFault {
    pub line: usize,
    pub column: usize,
}

/// What `serde_json` reads from `text`: the JSON value that the text
/// denotes, or the place where the text stops being JSON.
pub uninterp spec fn parsed_json(text: Seq<char>) -> Result<JsonTree, JsonFault>;

/// The text that `serde_json` writes for `tree`, indented, if it writes
/// one.
pub uninterp spec fn printed_json(tree: JsonTree) -> Option<Seq<char>>;

#[verifier::external_type_specification]
#[verifier::external_body]
pub struct ExValue(serde_json::Value);

/// Trusted: copies a `serde_json::Value` into a tree, variant by variant. A
/// number keeps what `Number::as_u64` gives for it; the members of an
/// object come in the order in which the value's map hands them out.
/// Nothing is claimed of the result.
#[verifier::external_body]
fn node_of_value(value: &Value) -> (node: JsonNode) {
    match value {
        Value::Null => JsonNode::Null,
        Value::Bool(b) => JsonNode::Bool(*b),
        Value::Number(n) => JsonNode::Number(n.as_u64()),
        Value::String(s) => JsonNode::Text(s.clone()),
        Value::Array(items) => JsonNode::List(items.iter().map(node_of_value).collect()),
        Value::Object(map) => JsonNode::Object(
            map.iter().map(|(k, v)| Member { key: k.clone(), value: node_of_value(v) }).collect(),
        ),
    }
}

/// Trusted: copies a tree into a `serde_json::Value`, variant by variant. A
/// number without a value becomes `Value::Null`. Nothing is claimed of the
/// result.
#[verifier::external_body]
fn value_of_node(node: &JsonNode) -> (value: Value) {
    match node {
        JsonNode::Null => Value::Null,
        JsonNode::Bool(b) => Value::Bool(*b),
        JsonNode::Number(n) => n.map_or(Value::Null, Value::from),
        JsonNode::Text(s) => Value::String(s.clone()),
        JsonNode::List(items) => Value::Array(items.iter().map(value_of_node).collect()),
        JsonNode::Object(members) => Value::Object(
            members.iter().map(|m| (m.key.clone(), value_of_node(&m.value))).collect(),
        ),
    }
}

/// Trusted: `serde_json::from_str` reads `text` as one JSON value. The
/// contract claims only that the outcome depends on the text alone, and
/// calls it [`parsed_json`]; on failure the place is what `Error::line` and
/// `Error::column` report.
#[verifier::external_body]
pub(crate) fn parse_json(text: &str) -> (outcome: Result<JsonNode, JsonFault>)
    ensures
        match outcome {
            Ok(node) => parsed_json(text@) == Ok::<JsonTree, JsonFault>(node@),
            Err(fault) => parsed_json(text@) == Err::<JsonTree, JsonFault>(fault),
        },
{
    match serde_json::from_str::<Value>(text) {
        Ok(value) => Ok(node_of_value(&value)),
        Err(error) => Err(JsonFault { line: error.line(), column: error.column() }),
    }
}

/// Trusted: `serde_json::to_string_pretty` writes `node` as indented JSON
/// text. The contract claims only that the outcome depends on the tree
/// alone, and calls it [`printed_json`].
#[verifier::external_body]
pub(crate) fn print_json(node: &JsonNode) -> (outcome: Option<String>)
    ensures
        match outcome {
            Some(text) => printed_json(node@) == Some(text@),
            None => printed_json(node@) is None,
        },
{
    serde_json::to_string_pretty(&value_of_node(node)).ok()
}

} // verus!
