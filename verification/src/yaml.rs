//! The boundary to the YAML renderer.
//!
//! Values are handed to `serde_yaml` one constructor at a time. The shape of
//! what was built is tracked by [`outside_tree`]; what a mapping keeps of the
//! entries it was given is named [`collected`]; and the text that the
//! renderer gives for a shape is named [`yaml_text`]. Everything else in the
//! library is stated over these names.

use vstd::prelude::*;
use crate::value::{
    distinct_scalar_keys, entry_views, item_views, lemma_view_mapping, lemma_view_sequence, Tree,
    YmlValue,
};

verus! {

/// `serde_yaml::Value`, carried through as it is: nothing inside it is
/// read here.
#[verifier::external_type_specification]
#[verifier::external_body]
pub struct ExValue(serde_yaml::Value);

/// `serde_yaml::Error`, carried through as it is.
#[verifier::external_type_specification]
#[verifier::external_body]
pub struct ExError(serde_yaml::Error);

/// The shape of a `serde_yaml::Value`: which variant it is and what it
/// holds, a mapping by its entries in the order in which it iterates.
pub uninterp spec fn outside_tree(v: serde_yaml::Value) -> Tree;

/// The entries that a `serde_yaml::Mapping` holds, in the order in which it
/// iterates, after the given entries were collected into it one after the
/// other: it keeps one entry for each key.
pub uninterp spec fn collected(pairs: Seq<(Tree, Tree)>) -> Seq<(Tree, Tree)>;

/// The text that `serde_yaml::to_string` returns for a value of the given
/// shape.
pub uninterp spec fn yaml_text(t: Tree) -> Seq<char>;

/// The shapes of the renderer values in `items`, in order.
pub open spec fn outside_trees(items: Seq<serde_yaml::Value>) -> Seq<Tree> {
    Seq::new(items.len(), |i: int| outside_tree(items[i]))
}

/// The shapes of the renderer entries in `pairs`, in order.
pub open spec fn outside_entries(pairs: Seq<(serde_yaml::Value, serde_yaml::Value)>) -> Seq<
    (Tree, Tree),
> {
    Seq::new(pairs.len(), |i: int| (outside_tree(pairs[i].0), outside_tree(pairs[i].1)))
}

/// `serde_yaml::Value::Null` is the null value.
#[verifier::external_body]
fn outside_null() -> (v: serde_yaml::Value)
    ensures
        outside_tree(v) == Tree::Null,
{
    serde_yaml::Value::Null
}

/// `serde_yaml::Value::Bool` holds the boolean it was given.
#[verifier::external_body]
fn outside_bool(b: bool) -> (v: serde_yaml::Value)
    ensures
        outside_tree(v) == Tree::Bool(b),
{
    serde_yaml::Value::Bool(b)
}

/// `serde_yaml::Value::Number`, made from an `i64` by `Number::from`, holds
/// that integer.
#[verifier::external_body]
fn outside_number(n: i64) -> (v: serde_yaml::Value)
    ensures
        outside_tree(v) == Tree::Number(n as int),
{
    serde_yaml::Value::Number(serde_yaml::Number::from(n))
}

/// `serde_yaml::Value::Number`, made from a `u64` by `Number::from`, holds
/// that integer.
#[verifier::external_body]
fn outside_unsigned(n: u64) -> (v: serde_yaml::Value)
    ensures
        outside_tree(v) == Tree::Number(n as int),
{
    serde_yaml::Value::Number(serde_yaml::Number::from(n))
}

/// `serde_yaml::Value::String` holds the text it was given.
#[verifier::external_body]
fn outside_string(s: &str) -> (v: serde_yaml::Value)
    ensures
        outside_tree(v) == Tree::Text(s@),
{
    serde_yaml::Value::String(s.to_owned())
}

/// `serde_yaml::Value::Sequence` holds the items it was given, in order.
#[verifier::external_body]
fn outside_sequence(items: Vec<serde_yaml::Value>) -> (v: serde_yaml::Value)
    ensures
        outside_tree(v) == Tree::Sequence(outside_trees(items@)),
{
    serde_yaml::Value::Sequence(items)
}

/// `serde_yaml::Value::Mapping`, with a `Mapping` collected from entries,
/// holds what the mapping keeps of them, by their shapes alone. It keeps
/// them all, in the order given, where no key is met twice: that is so for
/// a single entry, and for scalar keys that differ from one another.
#[verifier::external_body]
fn outside_mapping(pairs: Vec<(serde_yaml::Value, serde_yaml::Value)>) -> (v: serde_yaml::Value)
    ensures
        outside_tree(v) == Tree::Mapping(collected(outside_entries(pairs@))),
        pairs@.len() <= 1 || distinct_scalar_keys(outside_entries(pairs@)) ==> outside_tree(v)
            == Tree::Mapping(outside_entries(pairs@)),
{
    serde_yaml::Value::Mapping(pairs.into_iter().collect())
}

/// `serde_yaml::to_string` on a `Value` returns a text, and the text depends
/// on the value's shape alone. It returns no error: turning a `Value` into
/// the emitter's document has no failing case, and the emitter fails only
/// where its writer does, which here is a `Vec` of bytes.
#[verifier::external_body]
fn outside_text(v: &serde_yaml::Value) -> (r: Result<String, serde_yaml::Error>)
    ensures
        match r {
            Ok(s) => s@ == yaml_text(outside_tree(*v)),
            Err(_) => false,
        },
{
    serde_yaml::to_string(v)
}

/// The items of a sequence as the renderer holds them.
pub open spec fn settled_items(items: Seq<Tree>) -> Seq<Tree>
    decreases items, 0nat,
{
    Seq::new(
        items.len(),
        |i: int|
            if 0 <= i < items.len() {
                settled(items[i])
            } else {
                Tree::Null
            },
    )
}

/// The entries of a mapping, each key and each value as the renderer holds
/// it.
pub open spec fn settled_entries(pairs: Seq<(Tree, Tree)>) -> Seq<(Tree, Tree)>
    decreases pairs, 0nat,
{
    Seq::new(
        pairs.len(),
        |i: int|
            if 0 <= i < pairs.len() {
                (settled(pairs[i].0), settled(pairs[i].1))
            } else {
                (Tree::Null, Tree::Null)
            },
    )
}

/// A value as the renderer holds it: the same value, but that a mapping
/// holds what it keeps of its entries. A mapping of one entry, or with
/// scalar keys that differ from one another, keeps its entries as they are.
pub open spec fn settled(t: Tree) -> Tree
    decreases t, 1nat,
{
    match t {
        Tree::Sequence(items) => Tree::Sequence(settled_items(items)),
        Tree::Mapping(pairs) => {
            let inner = settled_entries(pairs);
            if inner.len() <= 1 || distinct_scalar_keys(inner) {
                Tree::Mapping(inner)
            } else {
                Tree::Mapping(collected(inner))
            }
        },
        _ => t,
    }
}

/// A settled sequence holds the settled items, one for one.
pub proof fn lemma_settled_sequence(items: Seq<Tree>)
    ensures
        settled(Tree::Sequence(items)) == Tree::Sequence(settled_items(items)),
        settled_items(items).len() == items.len(),
        forall|i: int|
            0 <= i < items.len() ==> (#[trigger] settled_items(items)[i]) == settled(items[i]),
{
}

/// A settled mapping holds what is kept of the settled entries.
pub proof fn lemma_settled_mapping(pairs: Seq<(Tree, Tree)>)
    ensures
        settled(Tree::Mapping(pairs)) == (if settled_entries(pairs).len() <= 1
            || distinct_scalar_keys(settled_entries(pairs)) {
            Tree::Mapping(settled_entries(pairs))
        } else {
            Tree::Mapping(collected(settled_entries(pairs)))
        }),
        settled_entries(pairs).len() == pairs.len(),
        forall|i: int|
            0 <= i < pairs.len() ==> (#[trigger] settled_entries(pairs)[i]) == (
                settled(pairs[i].0),
                settled(pairs[i].1),
            ),
{
}

/// Builds the renderer's value for a value.
fn lower(value: &YmlValue) -> (out: serde_yaml::Value)
    ensures
        outside_tree(out) == settled(value@),
    decreases value,
{
    match value {
        YmlValue::Null => outside_null(),
        YmlValue::Bool(b) => outside_bool(*b),
        YmlValue::Number(n) => outside_number(*n),
        YmlValue::Unsigned(n) => outside_unsigned(*n),
        YmlValue::String(s) => outside_string(s.as_str()),
        YmlValue::Sequence(items) => {
            let ghost trees = item_views(*items);
            proof {
                lemma_view_sequence(*items);
                lemma_settled_sequence(trees);
            }
            let mut built: Vec<serde_yaml::Value> = Vec::new();
            let mut i: usize = 0;
            while i < items.len()
                invariant
                    i <= items.len(),
                    value is Sequence,
                    value->Sequence_0 == *items,
                    built.len() == i,
                    trees.len() == items.len(),
                    forall|j: int| 0 <= j < items.len() ==> (#[trigger] trees[j]) == items[j]@,
                    forall|j: int|
                        0 <= j < i ==> outside_tree(#[trigger] built[j]) == settled(items[j]@),
                decreases items.len() - i,
            {
                assert(decreases_to!(value => value->Sequence_0));
                let low = lower(&items[i]);
                built.push(low);
                i = i + 1;
            }
            assert(outside_trees(built@) =~= settled_items(trees));
            outside_sequence(built)
        },
        YmlValue::Mapping(pairs) => {
            let ghost trees = entry_views(*pairs);
            proof {
                lemma_view_mapping(*pairs);
                lemma_settled_mapping(trees);
            }
            let mut built: Vec<(serde_yaml::Value, serde_yaml::Value)> = Vec::new();
            let mut i: usize = 0;
            while i < pairs.len()
                invariant
                    i <= pairs.len(),
                    value is Mapping,
                    value->Mapping_0 == *pairs,
                    built.len() == i,
                    trees.len() == pairs.len(),
                    forall|j: int|
                        0 <= j < pairs.len() ==> (#[trigger] trees[j]) == (
                            pairs[j].0@,
                            pairs[j].1@,
                        ),
                    forall|j: int|
                        0 <= j < i ==> outside_tree((#[trigger] built[j]).0) == settled(
                            pairs[j].0@,
                        ) && outside_tree(built[j].1) == settled(pairs[j].1@),
                decreases pairs.len() - i,
            {
                assert(decreases_to!(value => value->Mapping_0));
                assert(decreases_to!(value->Mapping_0 => value->Mapping_0[i as int]));
                assert(decreases_to!(value->Mapping_0[i as int] => value->Mapping_0[i as int].0));
                assert(decreases_to!(value->Mapping_0[i as int] => value->Mapping_0[i as int].1));
                let key = lower(&pairs[i].0);
                let held = lower(&pairs[i].1);
                built.push((key, held));
                i = i + 1;
            }
            assert(outside_entries(built@) =~= settled_entries(trees));
            outside_mapping(built)
        },
    }
}

/// The text of a value of the given shape: the renderer's text for the
/// value as the renderer holds it.
pub open spec fn rendering(t: Tree) -> Seq<char> {
    yaml_text(settled(t))
}

/// Renders a value as YAML text.
pub fn render(value: &YmlValue) -> (text: String)
    ensures
        text@ == rendering(value@),
{
    let low = lower(value);
    match outside_text(&low) {
        Ok(text) => text,
        Err(_) => vstd::pervasive::unreached(),
    }
}

} // verus!
