//! Text to tree and tree to text. The parser and the serializer are those of `serde_json`;
//! this module carries values across and states what the calls return.

use vstd::prelude::*;
use crate::value::{
    Json, JsonValue, distinct_keys, entries_view, items_view, lemma_array_view,
    lemma_object_view, lemma_wf_array, lemma_wf_object,
};

verus! {

/// The tree type of `serde_json`, as its parser returns it and its serializer takes it.
#[verifier::external_type_specification]
#[verifier::external_body]
pub struct ExTree(serde_json::Value);

/// The error type of `serde_json`.
#[verifier::external_type_specification]
#[verifier::external_body]
pub struct ExError(serde_json::Error);

/// What a `serde_json::Value` holds.
pub uninterp spec fn tree_of(tree: serde_json::Value) -> Json;

/// How many levels a `serde_json::Value` has below its root.
pub uninterp spec fn depth_of(tree: serde_json::Value) -> nat;

/// What a `serde_json::Error` says when it is displayed.
pub uninterp spec fn message_of(error: serde_json::Error) -> Seq<char>;

/// What `serde_json::from_str` makes of a text: the tree that it reads, or the message of
/// the error that it reports.
pub uninterp spec fn parsed(text: Seq<char>) -> Result<Json, Seq<char>>;

/// What the compact serializer of `serde_json` writes for a tree.
pub uninterp spec fn compact_text(tree: Json) -> Seq<char>;

/// What the pretty serializer of `serde_json` writes for a tree when each level is indented
/// by `indent`.
pub uninterp spec fn pretty_text(tree: Json, indent: Seq<char>) -> Seq<char>;

/// One level of a `serde_json::Value`: its variant, with the children still closed.
enum Shape {
    Null,
    Bool(bool),
    Number(serde_json::Number),
    String(String),
    Array(Vec<serde_json::Value>),
    Object(Vec<(String, serde_json::Value)>),
}

/// What the elements of an array of closed trees hold.
spec fn trees_view(items: Seq<serde_json::Value>) -> Seq<Json> {
    items.map_values(|t: serde_json::Value| tree_of(t))
}

/// What the entries of an object of closed trees hold.
spec fn tree_entries_view(entries: Seq<(String, serde_json::Value)>) -> Seq<
    (Seq<char>, Json),
> {
    entries.map_values(|e: (String, serde_json::Value)| (e.0@, tree_of(e.1)))
}

impl Shape {
    /// The tree that the level and its children make up.
    spec fn model(self) -> Json {
        match self {
            Shape::Null => Json::Null,
            Shape::Bool(b) => Json::Bool(b),
            Shape::Number(n) => Json::Number(n),
            Shape::String(s) => Json::String(s@),
            Shape::Array(items) => Json::Array(trees_view(items@)),
            Shape::Object(entries) => Json::Object(tree_entries_view(entries@)),
        }
    }

    /// Every child has fewer than `depth` levels.
    spec fn below(self, depth: nat) -> bool {
        match self {
            Shape::Array(items) => forall|i: int|
                0 <= i < items.len() ==> depth_of(#[trigger] items[i]) < depth,
            Shape::Object(entries) => forall|i: int|
                0 <= i < entries.len() ==> depth_of((#[trigger] entries[i]).1) < depth,
            _ => true,
        }
    }

    /// The keys of an object level are distinct.
    spec fn keyed(self) -> bool {
        match self {
            Shape::Object(entries) => distinct_keys(tree_entries_view(entries@)),
            _ => true,
        }
    }
}

/// Takes a `serde_json::Value` apart by its variant; the entries of a `serde_json::Map` come
/// out in the map's order. The contract says that the parts hold what the whole held, that
/// each child is a smaller tree, and that a map has no key twice.
#[verifier::external_body]
fn open_tree(tree: serde_json::Value) -> (r: Shape)
    ensures
        r.model() == tree_of(tree),
        r.below(depth_of(tree)),
        r.keyed(),
{
    match tree {
        serde_json::Value::Null => Shape::Null,
        serde_json::Value::Bool(b) => Shape::Bool(b),
        serde_json::Value::Number(n) => Shape::Number(n),
        serde_json::Value::String(s) => Shape::String(s),
        serde_json::Value::Array(items) => Shape::Array(items),
        serde_json::Value::Object(entries) => Shape::Object(entries.into_iter().collect()),
    }
}

/// Builds the `serde_json::Value` of a variant from its parts; the entries of an object are
/// collected into a `serde_json::Map` in their order. The contract says that the whole holds
/// what the parts held where the keys of the entries are distinct; where a key comes twice it
/// says nothing of what the map keeps.
#[verifier::external_body]
fn close_tree(shape: Shape) -> (r: serde_json::Value)
    ensures
        shape.keyed() ==> tree_of(r) == shape.model(),
{
    match shape {
        Shape::Null => serde_json::Value::Null,
        Shape::Bool(b) => serde_json::Value::Bool(b),
        Shape::Number(n) => serde_json::Value::Number(n),
        Shape::String(s) => serde_json::Value::String(s),
        Shape::Array(items) => serde_json::Value::Array(items),
        Shape::Object(entries) => serde_json::Value::Object(entries.into_iter().collect()),
    }
}

/// `serde_json::from_str` at the type `serde_json::Value`. The contract names the result.
#[verifier::external_body]
fn tree_from_str(text: &str) -> (r: Result<serde_json::Value, serde_json::Error>)
    ensures
        match r {
            Ok(tree) => parsed(text@) == Ok::<Json, Seq<char>>(tree_of(tree)),
            Err(error) => parsed(text@) == Err::<Json, Seq<char>>(message_of(error)),
        },
{
    serde_json::from_str::<serde_json::Value>(text)
}

/// The message of a `serde_json::Error`, as its `Display` writes it. The contract names the
/// text.
#[verifier::external_body]
fn error_message(error: &serde_json::Error) -> (r: String)
    ensures
        r@ == message_of(*error),
{
    error.to_string()
}

/// `serde_json::to_string` on a `serde_json::Value`. The contract names the text, and says
/// that the call succeeds: the keys of a `serde_json::Map` are strings, its numbers are
/// finite, and writing into a vector of bytes does not fail.
#[verifier::external_body]
fn tree_to_string(tree: &serde_json::Value) -> (r: Result<String, serde_json::Error>)
    ensures
        r is Ok,
        r->Ok_0@ == compact_text(tree_of(*tree)),
{
    serde_json::to_string(tree)
}

/// Serializes a `serde_json::Value` through `serde_json::Serializer::with_formatter` and
/// `serde_json::ser::PrettyFormatter::with_indent`. The contract names the text, and says
/// that the call succeeds, as for the compact form; the bytes written are UTF-8 because the
/// indent is.
#[verifier::external_body]
fn tree_to_string_indented(tree: &serde_json::Value, indent: &str) -> (r: Result<
    String,
    serde_json::Error,
>)
    ensures
        r is Ok,
        r->Ok_0@ == pretty_text(tree_of(*tree), indent@),
{
    let mut buf = Vec::new();
    let formatter = serde_json::ser::PrettyFormatter::with_indent(indent.as_bytes());
    let mut ser = serde_json::Serializer::with_formatter(&mut buf, formatter);
    serde::Serialize::serialize(tree, &mut ser)?;
    String::from_utf8(buf).map_err(serde::ser::Error::custom)
}

/// The value that a tree of `serde_json` holds.
pub fn from_tree(tree: serde_json::Value) -> (r: JsonValue)
    ensures
        r@ == tree_of(tree),
        r@.wf(),
    decreases depth_of(tree),
{
    match open_tree(tree) {
        Shape::Null => JsonValue::Null,
        Shape::Bool(b) => JsonValue::Bool(b),
        Shape::Number(n) => JsonValue::Number(n),
        Shape::String(s) => JsonValue::String(s),
        Shape::Array(items) => {
            let ghost all = items@;
            let mut out: Vec<JsonValue> = Vec::new();
            for item in it: items
                invariant
                    it.seq() == all,
                    forall|i: int|
                        0 <= i < all.len() ==> depth_of(#[trigger] all[i]) < depth_of(tree),
                    out.len() == it.index(),
                    forall|i: int|
                        0 <= i < out.len() ==> (#[trigger] out[i])@ == tree_of(all[i])
                            && out[i]@.wf(),
            {
                out.push(from_tree(item));
            }
            proof {
                lemma_array_view(out);
                assert(items_view(out@) =~= trees_view(all));
            }
            JsonValue::Array(out)
        },
        Shape::Object(entries) => {
            let ghost all = entries@;
            let mut out: Vec<(String, JsonValue)> = Vec::new();
            for entry in it: entries
                invariant
                    it.seq() == all,
                    forall|i: int|
                        0 <= i < all.len() ==> depth_of((#[trigger] all[i]).1) < depth_of(tree),
                    out.len() == it.index(),
                    forall|i: int|
                        0 <= i < out.len() ==> (#[trigger] out[i]).0@ == all[i].0@ && out[i].1@
                            == tree_of(all[i].1) && out[i].1@.wf(),
            {
                let (key, child) = entry;
                out.push((key, from_tree(child)));
            }
            proof {
                lemma_object_view(out);
                assert(entries_view(out@) =~= tree_entries_view(all));
            }
            JsonValue::Object(out)
        },
    }
}

/// The tree of `serde_json` that holds the value. Where an object of the value has a key
/// twice, the map of `serde_json` keeps one entry for it, and nothing is promised of the tree.
pub fn to_tree(value: &JsonValue) -> (r: serde_json::Value)
    ensures
        value@.wf() ==> tree_of(r) == value@,
    decreases value,
{
    match value {
        JsonValue::Null => close_tree(Shape::Null),
        JsonValue::Bool(b) => close_tree(Shape::Bool(*b)),
        JsonValue::Number(n) => close_tree(Shape::Number(n.clone())),
        JsonValue::String(s) => close_tree(Shape::String(s.clone())),
        JsonValue::Array(items) => {
            proof {
                lemma_array_view(*items);
            }
            let mut out: Vec<serde_json::Value> = Vec::new();
            let mut i: usize = 0;
            while i < items.len()
                invariant
                    i <= items.len(),
                    out.len() == i,
                    value == JsonValue::Array(*items),
                    value@ == Json::Array(items_view(items@)),
                    value@.wf() ==> forall|j: int|
                        0 <= j < i ==> tree_of(#[trigger] out[j]) == items[j]@,
                decreases items.len() - i,
            {
                proof {
                    lemma_wf_array(items_view(items@));
                    assert(items_view(items@)[i as int] == items[i as int]@);
                }
                out.push(to_tree(&items[i]));
                i += 1;
            }
            proof {
                if value@.wf() {
                    assert(trees_view(out@) =~= items_view(items@));
                }
            }
            close_tree(Shape::Array(out))
        },
        JsonValue::Object(entries) => {
            proof {
                lemma_object_view(*entries);
            }
            let mut out: Vec<(String, serde_json::Value)> = Vec::new();
            let mut i: usize = 0;
            while i < entries.len()
                invariant
                    i <= entries.len(),
                    out.len() == i,
                    value == JsonValue::Object(*entries),
                    value@ == Json::Object(entries_view(entries@)),
                    forall|j: int| 0 <= j < i ==> (#[trigger] out[j]).0@ == entries[j].0@,
                    value@.wf() ==> forall|j: int|
                        0 <= j < i ==> tree_of((#[trigger] out[j]).1) == entries[j].1@,
                decreases entries.len() - i,
            {
                proof {
                    lemma_wf_object(entries_view(entries@));
                    assert(entries_view(entries@)[i as int] == (
                        entries[i as int].0@,
                        entries[i as int].1@,
                    ));
                }
                out.push((entries[i].0.clone(), to_tree(&entries[i].1)));
                i += 1;
            }
            proof {
                if value@.wf() {
                    lemma_wf_object(entries_view(entries@));
                    assert(tree_entries_view(out@) =~= entries_view(entries@));
                }
            }
            close_tree(Shape::Object(out))
        },
    }
}

/// `n` spaces.
pub open spec fn spaces(n: nat) -> Seq<char> {
    Seq::new(n, |i: int| ' ')
}

/// A text of `n` spaces.
pub fn indent_of(n: usize) -> (r: String)
    ensures
        r@ == spaces(n as nat),
{
    let mut out = String::new();
    let mut i: usize = 0;
    while i < n
        invariant
            i <= n,
            out@ == spaces(i as nat),
        decreases n - i,
    {
        proof {
            assert(spaces(i as nat).push(' ') =~= spaces((i + 1) as nat));
        }
        out.push(' ');
        i += 1;
    }
    out
}

/// The model of what a parse came to.
pub open spec fn outcome_model(outcome: Result<JsonValue, String>) -> Result<Json, Seq<char>> {
    match outcome {
        Ok(value) => Ok(value@),
        Err(message) => Err(message@),
    }
}

/// What a parse came to: the value, or the parser's message.
pub fn parse_outcome(outcome: Result<serde_json::Value, serde_json::Error>) -> (r: Result<
    JsonValue,
    String,
>)
    ensures
        match outcome {
            Ok(tree) => r matches Ok(value) && value@ == tree_of(tree) && value@.wf(),
            Err(error) => r matches Err(message) && message@ == message_of(error),
        },
{
    match outcome {
        Ok(tree) => Ok(from_tree(tree)),
        Err(error) => Err(error_message(&error)),
    }
}

/// Parses a JSON text. An error carries the parser's message.
pub fn from_str(text: &str) -> (r: Result<JsonValue, String>)
    ensures
        outcome_model(r) == parsed(text@),
        r matches Ok(value) ==> value@.wf(),
{
    parse_outcome(tree_from_str(text))
}

/// The compact text of a value: no white space between its tokens.
pub fn to_string(value: &JsonValue) -> (r: String)
    ensures
        value@.wf() ==> r@ == compact_text(value@),
{
    match tree_to_string(&to_tree(value)) {
        Ok(text) => text,
        Err(_) => String::new(),
    }
}

/// The text of a value, one entry or element to a line, each level indented by `indent`
/// spaces more than the one around it.
pub fn to_string_indented(value: &JsonValue, indent: usize) -> (r: Result<String, String>)
    ensures
        r is Ok,
        value@.wf() ==> r->Ok_0@ == pretty_text(value@, spaces(indent as nat)),
{
    let fill = indent_of(indent);
    match tree_to_string_indented(&to_tree(value), fill.as_str()) {
        Ok(text) => Ok(text),
        Err(error) => Err(error_message(&error)),
    }
}

/// The text of a value, one entry or element to a line, indented by two spaces a level.
pub fn to_string_pretty(value: &JsonValue) -> (r: Result<String, String>)
    ensures
        r is Ok,
        value@.wf() ==> r->Ok_0@ == pretty_text(value@, spaces(2)),
{
    to_string_indented(value, 2)
}

} // verus!
