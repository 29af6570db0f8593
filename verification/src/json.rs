//! JSON values as trees.

use vstd::prelude::*;
use serde_json::Value as JsonValue;
use crate::text::{lemma_views_push, views};

verus! {

broadcast use {vstd::string::group_string_axioms, lemma_views_push};

/// `serde_json::Value`, of which nothing is seen but what the functions below state.
#[verifier::external_type_specification]
#[verifier::external_body]
pub struct ExJsonValue(JsonValue);

/// A JSON value.
pub struct Json {
    pub(crate) value: JsonValue,
}

/// What a JSON value holds. A number is held as it is written.
pub enum TreeView {
    Null,
    Boolean(bool),
    Number(Seq<char>),
    Text(Seq<char>),
    List(Seq<TreeView>),
    Record(Seq<(Seq<char>, TreeView)>),
}

/// What a JSON value holds.
pub uninterp spec fn json_tree(value: JsonValue) -> TreeView;

impl View for Json {
    type V = TreeView;

    closed spec fn view(&self) -> TreeView {
        json_tree(self.value)
    }
}

/// One layer of a JSON value.
pub enum JsonNode {
    Null,
    Boolean(bool),
    Number(String),
    Text(String),
    List(Vec<Json>),
    Record(Vec<(String, Json)>),
}

pub open spec fn entry_views(entries: Seq<(String, Json)>) -> Seq<(Seq<char>, TreeView)> {
    entries.map_values(|entry: (String, Json)| (entry.0@, entry.1@))
}

impl View for JsonNode {
    type V = TreeView;

    open spec fn view(&self) -> TreeView {
        match self {
            JsonNode::Null => TreeView::Null,
            JsonNode::Boolean(value) => TreeView::Boolean(*value),
            JsonNode::Number(text) => TreeView::Number(text@),
            JsonNode::Text(text) => TreeView::Text(text@),
            JsonNode::List(items) => TreeView::List(views(items@)),
            JsonNode::Record(entries) => TreeView::Record(entry_views(entries@)),
        }
    }
}

/// The first layer of a JSON value: the variants of `serde_json::Value`, with a number as its
/// `to_string` writes it, and an object as the entries that `serde_json::Map::iter` gives.
#[verifier::external_body]
fn layer_of(value: &JsonValue) -> (node: JsonNode)
    ensures
        node@ == json_tree(*value),
{
    match value.clone() {
        JsonValue::Null => JsonNode::Null,
        JsonValue::Bool(flag) => JsonNode::Boolean(flag),
        JsonValue::Number(number) => JsonNode::Number(number.to_string()),
        JsonValue::String(text) => JsonNode::Text(text),
        JsonValue::Array(items) => JsonNode::List(items.into_iter().map(|value| Json { value }).collect()),
        JsonValue::Object(entries) => JsonNode::Record(
            entries.into_iter().map(|(name, value)| (name, Json { value })).collect(),
        ),
    }
}

pub(crate) fn json_node(json: &Json) -> (node: JsonNode)
    ensures
        node@ == json@,
{
    layer_of(&json.value)
}

/// The position of an entry, from `from` on, of this name.
pub open spec fn entry_position(entries: Seq<(Seq<char>, TreeView)>, name: Seq<char>, from: nat) -> Option<nat>
    decreases entries.len() - from,
{
    if from >= entries.len() {
        None
    } else if entries[from as int].0 == name {
        Some(from)
    } else {
        entry_position(entries, name, from + 1)
    }
}

pub proof fn lemma_entry_position(entries: Seq<(Seq<char>, TreeView)>, name: Seq<char>, from: nat)
    ensures
        entry_position(entries, name, from) matches Some(index) ==> from <= index < entries.len(),
    decreases entries.len() - from,
{
    if from < entries.len() && entries[from as int].0 != name {
        lemma_entry_position(entries, name, from + 1);
    }
}

/// The value of a record's entry.
pub open spec fn field(tree: TreeView, name: Seq<char>) -> Option<TreeView> {
    match tree {
        TreeView::Record(entries) => match entry_position(entries, name, 0) {
            Some(index) => Some(entries[index as int].1),
            None => None,
        },
        _ => None,
    }
}

/// A record's entry is smaller than the record.
pub proof fn lemma_field(tree: TreeView, name: Seq<char>)
    ensures
        field(tree, name) matches Some(value) ==> decreases_to!(tree => value),
{
    if let TreeView::Record(entries) = tree {
        lemma_entry_position(entries, name, 0);
        if let Some(index) = entry_position(entries, name, 0) {
            assert(decreases_to!(tree => entries));
            assert(decreases_to!(entries => entries[index as int]));
            assert(decreases_to!(entries[index as int] => entries[index as int].1));
        }
    }
}

/// The items of a list.
pub open spec fn items_of(tree: TreeView) -> Seq<TreeView> {
    match tree {
        TreeView::List(items) => items,
        _ => Seq::empty(),
    }
}

/// The text of a text value.
pub open spec fn text_of(tree: TreeView) -> Option<Seq<char>> {
    match tree {
        TreeView::Text(text) => Some(text),
        _ => None,
    }
}

/// Whether a record's entry is `true`.
pub open spec fn flag(tree: TreeView, name: Seq<char>) -> bool {
    field(tree, name) == Some(TreeView::Boolean(true))
}

/// The entries of a record; none for other values.
pub open spec fn entries_of(tree: TreeView) -> Seq<(Seq<char>, TreeView)> {
    match tree {
        TreeView::Record(entries) => entries,
        _ => Seq::empty(),
    }
}

/// The entries of a record; none for other values.
pub fn take_entries(json: &Json) -> (entries: Vec<(String, Json)>)
    ensures
        entry_views(entries@) == entries_of(json@),
        forall|i: int| 0 <= i < entries@.len() ==> decreases_to!(json@ => (#[trigger] entries@[i]).1@),
{
    match json_node(json) {
        JsonNode::Record(entries) => {
            proof {
                let all = entry_views(entries@);
                assert forall|i: int| 0 <= i < entries@.len() implies decreases_to!(json@ => (#[trigger] entries@[i]).1@) by {
                    assert(all[i] == (entries@[i].0@, entries@[i].1@));
                    assert(json@ == TreeView::Record(all));
                    assert(decreases_to!(json@ => json@->Record_0));
                    assert(decreases_to!(all => all[i]));
                    assert(decreases_to!(all[i] => all[i].1));
                }
            }
            entries
        },
        _ => {
            let none: Vec<(String, Json)> = Vec::new();
            assert(entry_views(none@) =~= Seq::<(Seq<char>, TreeView)>::empty());
            none
        },
    }
}

/// The value of the first entry of this name.
pub open spec fn entry(entries: Seq<(Seq<char>, TreeView)>, name: Seq<char>) -> Option<TreeView> {
    match entry_position(entries, name, 0) {
        Some(index) => Some(entries[index as int].1),
        None => None,
    }
}

/// The value of the first entry of this name.
pub fn find_entry<'a>(entries: &'a Vec<(String, Json)>, name: &str) -> (result: Option<&'a Json>)
    ensures
        match result {
            Some(found) => entry(entry_views(entries@), name@) == Some(found@) && exists|i: int|
                0 <= i < entries@.len() && (#[trigger] entries@[i]).1 == *found,
            None => entry(entry_views(entries@), name@) is None,
        },
{
    let ghost all = entry_views(entries@);
    let mut index: usize = 0;
    while index < entries.len()
        invariant
            all == entry_views(entries@),
            index <= entries@.len(),
            entry_position(all, name@, index as nat) == entry_position(all, name@, 0),
        decreases entries@.len() - index,
    {
        assert(all[index as int] == (entries@[index as int].0@, entries@[index as int].1@));
        if *entries[index].0.as_str() == *name {
            return Some(&entries[index].1);
        }
        index = index + 1;
    }
    None
}

/// Whether a value is `null`.
pub fn is_null(json: &Json) -> (result: bool)
    ensures
        result == (json@ is Null),
{
    match json_node(json) {
        JsonNode::Null => true,
        _ => false,
    }
}

impl Json {
    /// A copy of the value, by `Clone` of `serde_json::Value`, which holds the same.
    #[verifier::external_body]
    pub(crate) fn share(&self) -> (copy: Json)
        ensures
            copy@ == self@,
    {
        Json { value: self.value.clone() }
    }

    /// What JSON text holds; none where it is not JSON.
    pub fn parse(text: &str) -> (result: Option<Json>)
        ensures
            match result {
                Some(json) => json_value(text@) == Some(json@),
                None => json_value(text@) is None,
            },
    {
        read_json(text)
    }

    /// The value as JSON text.
    pub fn to_text(&self) -> (text: String)
        ensures
            text@ == json_notation(self@),
    {
        json_text(self)
    }

    /// The first layer of the value.
    pub fn node(&self) -> (node: JsonNode)
        ensures
            node@ == self@,
    {
        json_node(self)
    }
}

/// How a JSON value is written.
pub uninterp spec fn json_notation(tree: TreeView) -> Seq<char>;

/// The `to_string` of a `serde_json::Value`. Only that it depends on what the value holds is said.
#[verifier::external_body]
pub(crate) fn json_text(json: &Json) -> (text: String)
    ensures
        text@ == json_notation(json@),
{
    json.value.to_string()
}

/// How a text is written as a JSON string.
pub uninterp spec fn quoted_json(text: Seq<char>) -> Seq<char>;

/// The `to_string` of a `serde_json::Value::String`. Only that it depends on the text is said.
#[verifier::external_body]
pub(crate) fn quote_json(text: &str) -> (quoted: String)
    ensures
        quoted@ == quoted_json(text@),
{
    JsonValue::String(text.to_owned()).to_string()
}

/// What JSON text holds; none where it is not JSON.
pub uninterp spec fn json_value(text: Seq<char>) -> Option<TreeView>;

/// `serde_json::from_str` to a `serde_json::Value`. What a text holds is not said, only that it
/// depends on the text alone.
#[verifier::external_body]
pub(crate) fn read_json(text: &str) -> (result: Option<Json>)
    ensures
        match result {
            Some(json) => json_value(text@) == Some(json@),
            None => json_value(text@) is None,
        },
{
    serde_json::from_str(text).ok().map(|value| Json { value })
}

/// A JSON object without the entry of this name; another value as it is.
pub open spec fn json_without(tree: TreeView, name: Seq<char>) -> TreeView {
    match tree {
        TreeView::Record(entries) => TreeView::Record(entries.filter(|entry: (Seq<char>, TreeView)| entry.0 != name)),
        _ => tree,
    }
}

/// `serde_json::Map::remove` on a copy of an object. The entries of other names stay, in their order.
#[verifier::external_body]
pub(crate) fn remove_entry(json: &Json, name: &str) -> (rest: Json)
    ensures
        rest@ == json_without(json@, name@),
{
    let mut value = json.value.clone();
    if let JsonValue::Object(entries) = &mut value {
        entries.remove(name);
    }
    Json { value }
}

} // verus!
