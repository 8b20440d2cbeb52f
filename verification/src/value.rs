//! The value model carried by log entries.
//!
//! A [`YmlValue`] is a YAML value held as plain data: a scalar, a sequence of
//! values, or a mapping kept as its entries in order. Its view is a [`Tree`],
//! the same shape over mathematical integers and sequences.

use vstd::prelude::*;

verus! {

/// The mathematical shape of a YAML value.
pub enum Tree {
    /// The null value.
    Null,
    /// A boolean.
    Bool(bool),
    /// An integer.
    Number(int),
    /// A text.
    Text(Seq<char>),
    /// A sequence of values.
    Sequence(Seq<Tree>),
    /// A mapping: its entries, each a key with its value, in order.
    Mapping(Seq<(Tree, Tree)>),
}

impl Tree {
    /// A scalar is anything but a sequence or a mapping.
    pub open spec fn is_scalar(self) -> bool {
        self is Null || self is Bool || self is Number || self is Text
    }

    /// A block is a text that holds a line break.
    pub open spec fn is_block(self) -> bool {
        self matches Tree::Text(s) && s.contains('\n')
    }
}

/// Every key is a scalar and no two keys are equal.
pub open spec fn distinct_scalar_keys(pairs: Seq<(Tree, Tree)>) -> bool {
    &&& forall|i: int| 0 <= i < pairs.len() ==> (#[trigger] pairs[i]).0.is_scalar()
    &&& forall|i: int, j: int|
        0 <= i < j < pairs.len() ==> (#[trigger] pairs[i]).0 != (#[trigger] pairs[j]).0
}

/// A YAML value: a scalar, a sequence of values, or a mapping held as its
/// entries in order.
#[derive(Debug, PartialEq, Eq)]
pub enum YmlValue {
    /// The null value.
    Null,
    /// A boolean.
    Bool(bool),
    /// An integer.
    Number(i64),
    /// An integer that may lie above the signed ones.
    Unsigned(u64),
    /// A text.
    String(String),
    /// A sequence of values.
    Sequence(Vec<YmlValue>),
    /// A mapping: its entries, each a key with its value, in order.
    Mapping(Vec<(YmlValue, YmlValue)>),
}

/// The shapes of the values in `items`, in order.
pub open spec fn item_views(items: Vec<YmlValue>) -> Seq<Tree>
    decreases items, 0nat,
{
    Seq::new(
        items.len() as nat,
        |i: int|
            if 0 <= i < items.len() {
                items[i].view()
            } else {
                Tree::Null
            },
    )
}

/// The shapes of the entries in `pairs`, in order.
pub open spec fn entry_views(pairs: Vec<(YmlValue, YmlValue)>) -> Seq<(Tree, Tree)>
    decreases pairs, 0nat,
{
    Seq::new(
        pairs.len() as nat,
        |i: int|
            if 0 <= i < pairs.len() {
                (pairs[i].0.view(), pairs[i].1.view())
            } else {
                (Tree::Null, Tree::Null)
            },
    )
}

impl View for YmlValue {
    type V = Tree;

    open spec fn view(&self) -> Tree
        decreases self, 1nat,
    {
        match self {
            YmlValue::Null => Tree::Null,
            YmlValue::Bool(b) => Tree::Bool(*b),
            YmlValue::Number(n) => Tree::Number(*n as int),
            YmlValue::Unsigned(n) => Tree::Number(*n as int),
            YmlValue::String(s) => Tree::Text(s@),
            YmlValue::Sequence(items) => Tree::Sequence(item_views(*items)),
            YmlValue::Mapping(pairs) => Tree::Mapping(entry_views(*pairs)),
        }
    }
}

/// The view of a sequence holds the views of its items, one for one.
pub proof fn lemma_view_sequence(items: Vec<YmlValue>)
    ensures
        YmlValue::Sequence(items)@ == Tree::Sequence(item_views(items)),
        item_views(items).len() == items.len(),
        forall|i: int| 0 <= i < items.len() ==> (#[trigger] item_views(items)[i]) == items[i]@,
{
}

/// The view of a mapping holds the views of its entries, one for one.
pub proof fn lemma_view_mapping(pairs: Vec<(YmlValue, YmlValue)>)
    ensures
        YmlValue::Mapping(pairs)@ == Tree::Mapping(entry_views(pairs)),
        entry_views(pairs).len() == pairs.len(),
        forall|i: int|
            0 <= i < pairs.len() ==> (#[trigger] entry_views(pairs)[i]) == (
                pairs[i].0@,
                pairs[i].1@,
            ),
{
}

impl YmlValue {
    /// Whether the value is a mapping.
    pub fn is_mapping(&self) -> (b: bool)
        ensures
            b == (self@ is Mapping),
    {
        match self {
            YmlValue::Mapping(_) => true,
            _ => false,
        }
    }

    /// Whether the value is a text that holds a line break.
    pub fn is_block(&self) -> (b: bool)
        ensures
            b == self@.is_block(),
    {
        match self {
            YmlValue::String(s) => crate::text::has_line_break(s.as_str()),
            _ => false,
        }
    }

    /// A copy of the value.
    pub fn duplicate(&self) -> (out: YmlValue)
        ensures
            out@ == self@,
        decreases self,
    {
        match self {
            YmlValue::Null => YmlValue::Null,
            YmlValue::Bool(b) => YmlValue::Bool(*b),
            YmlValue::Number(n) => YmlValue::Number(*n),
            YmlValue::Unsigned(n) => YmlValue::Unsigned(*n),
            YmlValue::String(s) => YmlValue::String(s.clone()),
            YmlValue::Sequence(items) => {
                let mut copy: Vec<YmlValue> = Vec::new();
                let mut i: usize = 0;
                while i < items.len()
                    invariant
                        i <= items.len(),
                        self is Sequence,
                        self->Sequence_0 == *items,
                        copy.len() == i,
                        forall|j: int| 0 <= j < i ==> (#[trigger] copy[j])@ == items[j]@,
                    decreases items.len() - i,
                {
                    assert(decreases_to!(self => self->Sequence_0));
                    let same = items[i].duplicate();
                    copy.push(same);
                    i = i + 1;
                }
                proof {
                    lemma_view_sequence(*items);
                    lemma_view_sequence(copy);
                    assert(item_views(copy) =~= item_views(*items));
                }
                YmlValue::Sequence(copy)
            },
            YmlValue::Mapping(pairs) => {
                let mut copy: Vec<(YmlValue, YmlValue)> = Vec::new();
                let mut i: usize = 0;
                while i < pairs.len()
                    invariant
                        i <= pairs.len(),
                        self is Mapping,
                        self->Mapping_0 == *pairs,
                        copy.len() == i,
                        forall|j: int|
                            0 <= j < i ==> (#[trigger] copy[j]).0@ == pairs[j].0@ && copy[j].1@
                                == pairs[j].1@,
                    decreases pairs.len() - i,
                {
                    assert(decreases_to!(self => self->Mapping_0));
                    assert(decreases_to!(self->Mapping_0 => self->Mapping_0[i as int]));
                    assert(decreases_to!(self->Mapping_0[i as int] => self->Mapping_0[i as int].0));
                    assert(decreases_to!(self->Mapping_0[i as int] => self->Mapping_0[i as int].1));
                    let key = pairs[i].0.duplicate();
                    let value = pairs[i].1.duplicate();
                    copy.push((key, value));
                    i = i + 1;
                }
                proof {
                    lemma_view_mapping(*pairs);
                    lemma_view_mapping(copy);
                    assert(entry_views(copy) =~= entry_views(*pairs));
                }
                YmlValue::Mapping(copy)
            },
        }
    }
}

} // verus!
