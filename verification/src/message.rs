//! The entries that are logged.

use vstd::prelude::*;
use crate::error::LogError;
use crate::formatter::YamlFormatter;
use crate::logger::Level;
use crate::value::{Tree, YmlValue};

verus! {

/// A point in time: whole seconds since the start of 1970 in UTC, and the
/// nanoseconds into that second.
#[derive(Debug, Clone, Copy, PartialEq, Eq, Structural)]
pub struct Timestamp {
    /// Whole seconds since the start of 1970 in UTC.
    pub secs: i64,
    /// Nanoseconds into the second.
    pub nanos: u32,
}

/// The message of an entry.
#[derive(Debug)]
pub enum MessageType {
    /// No message was set.
    Unset,
    /// A value.
    Value(YmlValue),
    /// A key with its value.
    KeyValue(YmlValue, YmlValue),
}

/// The shape of a message.
pub enum MessageShape {
    /// No message.
    Unset,
    /// A value of this shape.
    Value(Tree),
    /// A key and a value of these shapes.
    KeyValue(Tree, Tree),
}

impl View for MessageType {
    type V = MessageShape;

    open spec fn view(&self) -> MessageShape {
        match self {
            MessageType::Unset => MessageShape::Unset,
            MessageType::Value(value) => MessageShape::Value(value@),
            MessageType::KeyValue(key, value) => MessageShape::KeyValue(key@, value@),
        }
    }
}

impl Default for MessageType {
    fn default() -> (m: MessageType)
        ensures
            m@ == MessageShape::Unset,
    {
        MessageType::Unset
    }
}

impl MessageType {
    /// Whether no message was set.
    pub fn is_none(&self) -> (b: bool)
        ensures
            b == (self@ is Unset),
    {
        match self {
            MessageType::Unset => true,
            _ => false,
        }
    }

    /// The value of a message that is a value.
    pub fn unwrap(&self) -> (value: &YmlValue)
        requires
            self is Value,
        ensures
            *value == self->Value_0,
    {
        match self {
            MessageType::Value(value) => value,
            _ => vstd::pervasive::unreached(),
        }
    }

    /// The key and the value of a message that is a key with its value.
    pub fn _unwrap_kv(&self) -> (pair: (&YmlValue, &YmlValue))
        requires
            self is KeyValue,
        ensures
            *pair.0 == self->KeyValue_0,
            *pair.1 == self->KeyValue_1,
    {
        match self {
            MessageType::KeyValue(key, value) => (key, value),
            _ => vstd::pervasive::unreached(),
        }
    }
}

/// A field of the record of an entry.
#[derive(Debug, Clone, Copy, PartialEq, Eq, Structural)]
pub enum RecordField {
    /// When the entry was made.
    Timestamp,
    /// The name of the entry's level.
    LogLevel,
    /// The message.
    Message,
    /// The records of the children.
    Children,
}

/// One entry of the log: a message, and what may come with it.
#[derive(Debug)]
pub struct Block {
    /// When the entry was made.
    pub timestamp: Option<Timestamp>,
    /// How severe the entry is.
    pub log_level: Option<Level>,
    /// Words by which the entry can be found.
    pub tags: Option<Vec<String>>,
    /// What the entry says.
    pub message: MessageType,
    /// How the message is to be written.
    pub _style: Option<YamlFormatter>,
    /// Entries that stand below this one.
    pub children: Option<Vec<Block>>,
}

/// What is wrong with an entry of this message and these children: first
/// with the entry itself, then with its children in order.
///
/// An entry needs a message. With children, the message may be neither a
/// mapping nor a key with its value.
pub open spec fn shape_error_of(message: MessageShape, children: Option<Vec<Block>>) -> Option<
    LogError,
>
    decreases children, 0nat,
{
    match (message, children) {
        (MessageShape::Unset, _) => Some(LogError::MissingMessage),
        (MessageShape::Value(value), Some(below)) => if value is Mapping {
            Some(LogError::InvalidShape)
        } else {
            first_child_error(below, 0)
        },
        (MessageShape::Value(_), None) => None,
        (MessageShape::KeyValue(_, _), Some(_)) => Some(LogError::InvalidShape),
        (MessageShape::KeyValue(_, _), None) => None,
    }
}

/// What is wrong with the first entry, at or after `from`, with which
/// something is wrong.
pub open spec fn first_child_error(below: Vec<Block>, from: nat) -> Option<LogError>
    decreases below, below.len() - from,
{
    if from >= below.len() {
        None
    } else {
        match shape_error_of(below[from as int].message@, below[from as int].children) {
            Some(e) => Some(e),
            None => first_child_error(below, from + 1),
        }
    }
}

/// The tree of an entry of this message and these children.
///
/// A message alone is its own tree, a key with its value a mapping of one
/// entry. With children, the message is the key of a mapping of one entry,
/// whose value is the sequence of the children's trees.
pub open spec fn tree_of(message: MessageShape, children: Option<Vec<Block>>) -> Tree
    decreases children, 0nat,
{
    match (message, children) {
        (MessageShape::Value(value), Some(below)) => Tree::Mapping(
            seq![(value, Tree::Sequence(child_trees(below)))],
        ),
        (MessageShape::Value(value), None) => value,
        (MessageShape::KeyValue(key, value), None) => Tree::Mapping(seq![(key, value)]),
        _ => Tree::Null,
    }
}

/// The trees of the entries in `below`, in order.
pub open spec fn child_trees(below: Vec<Block>) -> Seq<Tree>
    decreases below, 1nat,
{
    Seq::new(
        below.len() as nat,
        |i: int|
            if 0 <= i < below.len() {
                tree_of(below[i].message@, below[i].children)
            } else {
                Tree::Null
            },
    )
}

impl Default for Block {
    fn default() -> (b: Block)
        ensures
            b.timestamp is None,
            b.log_level is None,
            b.tags is None,
            b.message is Unset,
            b._style is None,
            b.children is None,
    {
        Block {
            timestamp: None,
            log_level: None,
            tags: None,
            message: MessageType::Unset,
            _style: None,
            children: None,
        }
    }
}

impl Block {
    /// What is wrong with the entry, if anything is.
    pub open spec fn shape_error(&self) -> Option<LogError> {
        shape_error_of(self.message@, self.children)
    }

    /// The tree of the entry.
    pub open spec fn tree(&self) -> Tree {
        tree_of(self.message@, self.children)
    }

    /// How many of the things that may come with a message were set: the
    /// timestamp, the tags, the children and the level.
    pub open spec fn extras(&self) -> nat {
        let timestamp: nat = if self.timestamp is Some { 1 } else { 0 };
        let tags: nat = if self.tags is Some { 1 } else { 0 };
        let children: nat = if self.children is Some { 1 } else { 0 };
        let level: nat = if self.log_level is Some { 1 } else { 0 };
        timestamp + tags + children + level
    }

    /// How many of the things that may come with a message were set. An
    /// entry with none of them is written as its message alone.
    pub fn count_extras(&self) -> (n: usize)
        ensures
            n == self.extras(),
    {
        let mut n: usize = 0;
        if self.timestamp.is_some() {
            n = n + 1;
        }
        if self.tags.is_some() {
            n = n + 1;
        }
        if self.children.is_some() {
            n = n + 1;
        }
        if self.log_level.is_some() {
            n = n + 1;
        }
        n
    }

    /// The fields of the entry's record, in the order in which they are
    /// written: the timestamp and the level where they were set, the
    /// message, and the children where they were set.
    pub open spec fn fields(&self) -> Seq<RecordField> {
        let timestamp = if self.timestamp is Some {
            seq![RecordField::Timestamp]
        } else {
            Seq::empty()
        };
        let level = if self.log_level is Some {
            seq![RecordField::LogLevel]
        } else {
            Seq::empty()
        };
        let children = if self.children is Some {
            seq![RecordField::Children]
        } else {
            Seq::empty()
        };
        timestamp + level + seq![RecordField::Message] + children
    }

    /// How the entry is written as a record: as its message alone, `None`,
    /// where nothing else was set on it, and else with the given fields. An
    /// entry without a message has no record.
    pub open spec fn layout_of(&self) -> Result<Option<Seq<RecordField>>, LogError> {
        if self.message@ is Unset {
            Err(LogError::MissingMessage)
        } else if self.extras() == 0 {
            Ok(None)
        } else {
            Ok(Some(self.fields()))
        }
    }

    /// How the entry is written as a record: as its message alone, `None`,
    /// where nothing else was set on it, and else with the given fields.
    /// Fails on an entry without a message.
    pub fn layout(&self) -> (r: Result<Option<Vec<RecordField>>, LogError>)
        ensures
            match r {
                Ok(Some(fields)) => self.layout_of() == Ok::<Option<Seq<RecordField>>, LogError>(
                    Some(fields@),
                ),
                Ok(None) => self.layout_of() == Ok::<Option<Seq<RecordField>>, LogError>(None),
                Err(e) => self.layout_of() == Err::<Option<Seq<RecordField>>, LogError>(e),
            },
    {
        if self.message.is_none() {
            return Err(LogError::MissingMessage);
        }
        if self.count_extras() == 0 {
            return Ok(None);
        }
        let mut fields: Vec<RecordField> = Vec::new();
        if self.timestamp.is_some() {
            fields.push(RecordField::Timestamp);
        }
        if self.log_level.is_some() {
            fields.push(RecordField::LogLevel);
        }
        fields.push(RecordField::Message);
        if self.children.is_some() {
            fields.push(RecordField::Children);
        }
        assert(fields@ =~= self.fields());
        Ok(Some(fields))
    }

    /// An entry with nothing set.
    pub fn new() -> (b: Block)
        ensures
            b.timestamp is None,
            b.log_level is None,
            b.tags is None,
            b.message is Unset,
            b._style is None,
            b.children is None,
    {
        Block {
            timestamp: None,
            log_level: None,
            tags: None,
            message: MessageType::Unset,
            _style: None,
            children: None,
        }
    }

    /// Sets the message to a value, in place of any message set before.
    pub fn set_message(&mut self, message: YmlValue)
        ensures
            *final(self) == (Block { message: MessageType::Value(message), ..*old(self) }),
    {
        self.message = MessageType::Value(message);
    }

    /// Sets the message to a key with its value, in place of any message set
    /// before.
    pub fn set_key_value(&mut self, key: YmlValue, value: YmlValue)
        ensures
            *final(self) == (Block { message: MessageType::KeyValue(key, value), ..*old(self) }),
    {
        self.message = MessageType::KeyValue(key, value);
    }

    /// Sets the tags.
    pub fn set_tags(&mut self, tags: Vec<String>)
        ensures
            *final(self) == (Block { tags: Some(tags), ..*old(self) }),
    {
        self.tags = Some(tags);
    }

    /// Sets the children.
    pub fn set_children(&mut self, children: Vec<Block>)
        ensures
            *final(self) == (Block { children: Some(children), ..*old(self) }),
    {
        self.children = Some(children);
    }

    /// Sets the level.
    pub fn set_log_level(&mut self, level: Level)
        ensures
            *final(self) == (Block { log_level: Some(level), ..*old(self) }),
    {
        self.log_level = Some(level);
    }

    /// Sets the timestamp to `at`, the time that the caller read from its
    /// clock.
    pub fn stamp(&mut self, at: Timestamp)
        ensures
            *final(self) == (Block { timestamp: Some(at), ..*old(self) }),
    {
        self.timestamp = Some(at);
    }
}

} // verus!
