//! The depth tracker: the state machine that decides, entry by entry, what
//! punctuation and indentation stand around the entry's text.

use vstd::prelude::*;
use vstd::string::StringExecFns;
use crate::error::LogError;
use crate::message::{
    child_trees, first_child_error, shape_error_of, tree_of, Block, MessageShape, MessageType,
};
use crate::text::{
    chars_of, find, find_first, find_from, lemma_find_from, matches_at, push_all, repeat, repeated,
    replace, replaced, string_of, sub_chars, trim_end, trimmed,
};
use crate::value::{lemma_view_mapping, lemma_view_sequence, Tree, YmlValue};
use crate::yaml::{render, rendering};

verus! {

/// What was written last at one level of nesting.
#[derive(Debug, Clone, Copy, PartialEq, Eq, Structural)]
pub enum LastBlockType {
    /// Nothing has been written at this level.
    Fresh,
    /// The tracker was reset: the next entry starts a new document.
    Reset,
    /// An entry of one line.
    Message,
    /// An entry written as a block of several lines.
    BlockMessage,
    /// An indent was asked for after an entry of one line.
    Indent,
    /// An indent was asked for after a block.
    BlockIndent,
    /// A key with its value.
    KeyValue,
}

impl Default for LastBlockType {
    fn default() -> (frame: LastBlockType)
        ensures
            frame == LastBlockType::Fresh,
    {
        LastBlockType::Fresh
    }
}

/// Whether the frame at position `i` is in a place where it can be.
///
/// A fresh frame or a reset frame is the only frame of its stack. A pending
/// indent is the top frame and lies on the kind of entry after which it
/// was asked for. No frame is left behind by a key with its value.
pub open spec fn frame_fits(stack: Seq<LastBlockType>, i: int) -> bool {
    match stack[i] {
        LastBlockType::Fresh | LastBlockType::Reset => stack.len() == 1,
        LastBlockType::Message | LastBlockType::BlockMessage => true,
        LastBlockType::Indent => i == stack.len() - 1 && i >= 1 && stack[i - 1] is Message,
        LastBlockType::BlockIndent => i == stack.len() - 1 && i >= 1 && stack[i - 1]
            is BlockMessage,
        LastBlockType::KeyValue => false,
    }
}

/// The stacks that a tracker can hold.
pub open spec fn well_formed(stack: Seq<LastBlockType>) -> bool {
    forall|i: int| 0 <= i < stack.len() ==> frame_fits(stack, i)
}

/// The stack after an indent was asked for: a pending indent on an entry,
/// and no change on anything else.
pub open spec fn indented(stack: Seq<LastBlockType>) -> Seq<LastBlockType> {
    if stack.len() > 0 && stack.last() is Message {
        stack.push(LastBlockType::Indent)
    } else if stack.len() > 0 && stack.last() is BlockMessage {
        stack.push(LastBlockType::BlockIndent)
    } else {
        stack
    }
}

/// The stack after a dedent: one frame less, and no change on the empty
/// stack.
pub open spec fn dedented(stack: Seq<LastBlockType>) -> Seq<LastBlockType> {
    if stack.len() > 0 {
        stack.drop_last()
    } else {
        stack
    }
}

/// The stack after a reset: the one frame that says so, whatever the stack
/// was.
pub open spec fn restarted(stack: Seq<LastBlockType>) -> Seq<LastBlockType> {
    seq![LastBlockType::Reset]
}

/// The frame that an entry leaves behind.
pub open spec fn frame_of(block: bool) -> LastBlockType {
    if block {
        LastBlockType::BlockMessage
    } else {
        LastBlockType::Message
    }
}

/// The stack after an entry was written.
///
/// On the empty stack the entry's frame is pushed; on any other stack it
/// takes the place of the top frame. After a block, whether an entry or a
/// pending indent, the frame is that of a block whatever the entry is.
pub open spec fn advanced(stack: Seq<LastBlockType>, block: bool) -> Seq<LastBlockType> {
    if stack.len() == 0 {
        seq![frame_of(block)]
    } else {
        match stack.last() {
            LastBlockType::BlockMessage | LastBlockType::BlockIndent => stack.drop_last().push(
                LastBlockType::BlockMessage,
            ),
            _ => stack.drop_last().push(frame_of(block)),
        }
    }
}

/// The frames that mark where an entry and its children end.
pub open spec fn trail_of(message: MessageShape, children: Option<Vec<Block>>) -> Seq<
    LastBlockType,
>
    decreases children,
{
    match (message, children) {
        (MessageShape::Value(_), Some(below)) => if below.len() == 0 {
            Seq::empty()
        } else {
            trail_of(below[below.len() - 1].message@, below[below.len() - 1].children)
        },
        (MessageShape::Value(_), None) => seq![LastBlockType::Message],
        (MessageShape::KeyValue(_, _), None) => seq![LastBlockType::KeyValue],
        _ => Seq::empty(),
    }
}

/// The key under which the entry is held in the wrapper.
pub open spec fn cut_key() -> Seq<char> {
    "__Cut Here__"@
}

/// The line at which the rendered wrapper is cut.
pub open spec fn cut_line() -> Seq<char> {
    "__Cut Here__:\n"@
}

/// The wrapper that places a value at a stack of `depth` frames: a mapping
/// under the cut key that holds the value as the one item of a sequence,
/// inside one mapping under the empty key for each frame beyond the second.
pub open spec fn padded(value: Tree, depth: nat) -> Tree
    decreases depth,
{
    if depth <= 2 {
        Tree::Mapping(seq![(Tree::Text(cut_key()), Tree::Sequence(seq![value]))])
    } else {
        Tree::Mapping(seq![(Tree::Text(Seq::empty()), padded(value, (depth - 1) as nat))])
    }
}

/// The character that a letter stands for behind a backslash in a
/// double-quoted text, where it stands for one.
pub open spec fn escape_letter(c: char) -> Option<char> {
    if c == '"' {
        Some('"')
    } else if c == '\\' {
        Some('\\')
    } else if c == 'n' {
        Some('\n')
    } else if c == 't' {
        Some('\t')
    } else if c == 'r' {
        Some('\r')
    } else if c == 'b' {
        Some('\u{8}')
    } else if c == 'f' {
        Some('\u{c}')
    } else {
        None
    }
}

/// The value of a hexadecimal digit.
pub open spec fn hex_value(c: char) -> Option<u8> {
    if '0' <= c <= '9' {
        Some((c as u8 - '0' as u8) as u8)
    } else if 'a' <= c <= 'f' {
        Some((c as u8 - 'a' as u8 + 10) as u8)
    } else if 'A' <= c <= 'F' {
        Some((c as u8 - 'A' as u8 + 10) as u8)
    } else {
        None
    }
}

/// The character that a quoted text begins with, and how many characters
/// of the text write it.
///
/// A backslash and one of the letters above are two characters for one. A
/// backslash, `u00` and two hexadecimal digits are six characters for the
/// character of that code. Any other character, a backslash before
/// anything else among them, is itself.
pub open spec fn escape_at(s: Seq<char>) -> (char, int)
    recommends
        s.len() > 0,
{
    if s.len() >= 2 && s[0] == '\\' && escape_letter(s[1]) is Some {
        (escape_letter(s[1])->0, 2)
    } else if s.len() >= 6 && s[0] == '\\' && s[1] == 'u' && s[2] == '0' && s[3] == '0'
        && hex_value(s[4]) is Some && hex_value(s[5]) is Some {
        (((16 * hex_value(s[4])->0 + hex_value(s[5])->0) as u8) as char, 6)
    } else {
        (s[0], 1)
    }
}

/// A quoted text with its escapes undone, from left to right.
pub open spec fn unescaped(s: Seq<char>) -> Seq<char>
    decreases s.len(),
{
    if s.len() == 0 {
        Seq::empty()
    } else {
        seq![escape_at(s).0] + unescaped(s.skip(escape_at(s).1))
    }
}

/// The fragment cut out of a rendered wrapper.
///
/// The fragment is what follows the first cut line. For a block it is
/// reshaped: the first `2 * depth` characters, the indent and the item
/// marker, stay; after them comes the header `|-`; the rest, without its
/// first character and its last two, is the quoted body. Its escapes are
/// undone, and each of its lines starts with `2 * depth` spaces.
///
/// `None` where there is no cut line, or too little after it for a block.
pub open spec fn spliced(rendered: Seq<char>, depth: nat, block: bool) -> Option<Seq<char>> {
    match find(rendered, cut_line()) {
        None => None,
        Some(at) => {
            let message = rendered.skip(at + cut_line().len());
            if !block {
                Some(message)
            } else if message.len() < 2 * depth + 3 {
                None
            } else {
                let lead = message.take(2 * depth as int);
                let end = message.skip(2 * depth as int);
                let gap = repeated(seq![' '], 2 * depth);
                let body = replaced(
                    unescaped(end.subrange(1, end.len() - 2)),
                    seq!['\n'],
                    seq!['\n'] + gap,
                );
                Some(lead + seq!['|', '-', '\n'] + gap + body + seq!['\n'])
            }
        },
    }
}

/// The text of a value at a stack of `depth` frames, for a depth of one or
/// more, before anything is put in front of it.
///
/// At depth one the value is rendered as it is, but a block is written
/// after the header `|+`. At a greater depth the value is rendered inside
/// its wrapper and cut out.
pub open spec fn placed(value: Tree, depth: nat) -> Result<Seq<char>, LogError> {
    if depth <= 1 {
        if value.is_block() {
            Ok(seq!['|', '+', ' '] + value->Text_0)
        } else {
            Ok(rendering(value))
        }
    } else {
        match spliced(rendering(padded(value, depth)), depth, value.is_block()) {
            Some(fragment) => Ok(fragment),
            None => Err(LogError::RenderInvariantViolation),
        }
    }
}

/// Whether the next entry begins a new document: no document was begun, or
/// the one frame says that nothing was written or that the tracker was
/// reset.
pub open spec fn blank(stack: Seq<LastBlockType>) -> bool {
    stack.len() == 0 || (stack.len() == 1 && (stack[0] is Fresh || stack[0] is Reset))
}

/// What is written in front of an entry's text on a stack that is not blank.
///
/// After an entry, a line break. After a pending indent, a colon and a line
/// break: the entry before becomes a key. After an indent that is pending
/// on a block, a line break and an item with the empty key, at the depth of
/// the block, to open the nested sequence.
pub open spec fn prefix_of(stack: Seq<LastBlockType>) -> Seq<char> {
    match stack.last() {
        LastBlockType::Indent => seq![':', '\n'],
        LastBlockType::BlockIndent => seq!['\n'] + repeated(
            seq![' ', ' '],
            (stack.len() - 2) as nat,
        ) + seq!['-', ' ', '"', '"', ' ', ':', '\n'],
        _ => seq!['\n'],
    }
}

/// The text that is written for a value on the given stack, or why none is
/// written.
///
/// On a blank stack the value is rendered as a new document, with nothing
/// in front of it. On any other stack it is placed at the depth of the
/// stack, after the prefix of the stack. White space at the end is
/// removed.
pub open spec fn emitted(stack: Seq<LastBlockType>, value: Tree) -> Result<Seq<char>, LogError> {
    if blank(stack) {
        Ok(trimmed(rendering(value)))
    } else {
        match placed(value, stack.len()) {
            Ok(text) => Ok(trimmed(prefix_of(stack) + text)),
            Err(e) => Err(e),
        }
    }
}

/// The text that is written for an entry of this message and these
/// children, or why none is written: what is wrong with the entry, or else
/// what its tree comes to.
pub open spec fn outcome(
    stack: Seq<LastBlockType>,
    message: MessageShape,
    children: Option<Vec<Block>>,
) -> Result<Seq<char>, LogError> {
    match shape_error_of(message, children) {
        Some(e) => Err(e),
        None => emitted(stack, tree_of(message, children)),
    }
}

/// The trees of the children hold one tree for each child, in order.
pub proof fn lemma_child_trees(below: Vec<Block>)
    ensures
        child_trees(below).len() == below.len(),
        forall|i: int|
            0 <= i < below.len() ==> (#[trigger] child_trees(below)[i]) == tree_of(
                below[i].message@,
                below[i].children,
            ),
{
}

/// The character that a letter stands for behind a backslash.
fn letter_of(c: char) -> (r: Option<char>)
    ensures
        r == escape_letter(c),
{
    if c == '"' {
        Some('"')
    } else if c == '\\' {
        Some('\\')
    } else if c == 'n' {
        Some('\n')
    } else if c == 't' {
        Some('\t')
    } else if c == 'r' {
        Some('\r')
    } else if c == 'b' {
        Some('\u{8}')
    } else if c == 'f' {
        Some('\u{c}')
    } else {
        None
    }
}

/// The value of a hexadecimal digit.
fn digit_of(c: char) -> (r: Option<u8>)
    ensures
        r == hex_value(c),
        r matches Some(v) ==> v < 16,
{
    if '0' <= c && c <= '9' {
        Some(c as u8 - '0' as u8)
    } else if 'a' <= c && c <= 'f' {
        Some(c as u8 - 'a' as u8 + 10)
    } else if 'A' <= c && c <= 'F' {
        Some(c as u8 - 'A' as u8 + 10)
    } else {
        None
    }
}

/// Undoes the escapes of a quoted text.
pub fn unescape(v: &Vec<char>) -> (out: Vec<char>)
    ensures
        out@ == unescaped(v@),
{
    let mut out: Vec<char> = Vec::new();
    let mut i: usize = 0;
    proof {
        assert(v@.skip(0) == v@);
        assert(out@ + unescaped(v@) == unescaped(v@));
    }
    while i < v.len()
        invariant
            i <= v.len(),
            unescaped(v@) == out@ + unescaped(v@.skip(i as int)),
        decreases v.len() - i,
    {
        let ghost rest = v@.skip(i as int);
        let left: usize = v.len() - i;
        let mut put: char = v[i];
        let mut step: usize = 1;
        proof {
            assert(rest.len() == left);
            assert(rest[0] == v@[i as int]);
            if left >= 2 {
                assert(rest[1] == v@[i + 1]);
            }
            if left >= 6 {
                assert(rest[2] == v@[i + 2] && rest[3] == v@[i + 3] && rest[4] == v@[i + 4]
                    && rest[5] == v@[i + 5]);
            }
        }
        if put == '\\' && left >= 2 {
            match letter_of(v[i + 1]) {
                Some(d) => {
                    put = d;
                    step = 2;
                },
                None => {
                    if left >= 6 && v[i + 1] == 'u' && v[i + 2] == '0' && v[i + 3] == '0' {
                        let high = digit_of(v[i + 4]);
                        let low = digit_of(v[i + 5]);
                        match (high, low) {
                            (Some(h), Some(l)) => {
                                put = (16 * h + l) as char;
                                step = 6;
                            },
                            _ => {},
                        }
                    }
                },
            }
        }
        proof {
            assert(escape_at(rest) == (put, step as int));
            assert(rest.skip(step as int) == v@.skip(i + step));
            assert(out@ + (seq![put] + unescaped(rest.skip(step as int))) == out@.push(put)
                + unescaped(rest.skip(step as int)));
        }
        out.push(put);
        i = i + step;
    }
    proof {
        assert(v@.skip(v.len() as int).len() == 0);
        assert(out@ + Seq::<char>::empty() == out@);
    }
    out
}

/// Cuts an entry out of a rendered wrapper.
///
/// `rendered` is the renderer's text for the wrapper of an entry at a stack
/// of `depth` frames; `block` says whether the entry is a block. Fails
/// where the text does not hold the cut line, or holds too little after it
/// for a block.
pub fn splice(rendered: &str, depth: usize, block: bool) -> (r: Result<String, LogError>)
    ensures
        match r {
            Ok(text) => spliced(rendered@, depth as nat, block) == Some(text@),
            Err(e) => e == LogError::RenderInvariantViolation && spliced(
                rendered@,
                depth as nat,
                block,
            ) is None,
        },
{
    let hay: Vec<char> = chars_of(rendered);
    let needle: Vec<char> = chars_of("__Cut Here__:\n");
    let at: usize = match find_first(&hay, &needle) {
        Some(at) => at,
        None => {
            return Err(LogError::RenderInvariantViolation);
        },
    };
    proof {
        lemma_find_from(hay@, needle@, 0);
        assert(find_from(hay@, needle@, 0) == Some(at as int));
        assert(matches_at(hay@, needle@, at as int));
        assert(at + needle.len() <= hay.len());
    }
    let start: usize = at + needle.len();
    let ghost message = hay@.skip(start as int);
    if !block {
        let out = sub_chars(&hay, start, hay.len());
        assert(out@ == message);
        return Ok(string_of(&out));
    }
    let room: usize = hay.len() - start;
    if room < 3 || depth > (room - 3) / 2 {
        return Err(LogError::RenderInvariantViolation);
    }
    let size: usize = 2 * depth;
    let lead: Vec<char> = sub_chars(&hay, start, start + size);
    let inner: Vec<char> = sub_chars(&hay, start + size + 1, hay.len() - 2);
    let space: Vec<char> = vec![' '];
    let gap: Vec<char> = repeat(&space, size);
    let plain: Vec<char> = unescape(&inner);
    let from: Vec<char> = vec!['\n'];
    let mut to: Vec<char> = vec!['\n'];
    push_all(&mut to, &gap);
    let body: Vec<char> = replace(&plain, &from, &to);
    let mut out: Vec<char> = lead;
    out.push('|');
    out.push('-');
    out.push('\n');
    push_all(&mut out, &gap);
    push_all(&mut out, &body);
    out.push('\n');
    proof {
        let end = message.skip(size as int);
        assert(space@ == seq![' ']);
        assert(from@ == seq!['\n']);
        assert(to@ == seq!['\n'] + gap@);
        assert(lead@ == message.take(size as int));
        assert(inner@ == end.subrange(1, end.len() - 2));
        assert(out@ == message.take(size as int) + seq!['|', '-', '\n'] + gap@ + body@ + seq![
            '\n',
        ]);
    }
    Ok(string_of(&out))
}

/// Wraps a value for a stack of `depth` frames; for a stack of less than
/// two frames, as for one of two.
pub fn pad_value(value: YmlValue, depth: usize) -> (out: YmlValue)
    ensures
        out@ == padded(value@, depth as nat),
{
    let ghost tree = value@;
    let items: Vec<YmlValue> = vec![value];
    let key = YmlValue::String(String::from_str("__Cut Here__"));
    let pairs: Vec<(YmlValue, YmlValue)> = vec![(key, YmlValue::Sequence(items))];
    proof {
        lemma_view_sequence(items);
        lemma_view_mapping(pairs);
        assert(crate::value::item_views(items) =~= seq![tree]);
        assert(crate::value::entry_views(pairs) =~= seq![
            (Tree::Text(cut_key()), Tree::Sequence(seq![tree])),
        ]);
    }
    let mut out = YmlValue::Mapping(pairs);
    let mut k: usize = 2;
    while k < depth
        invariant
            2 <= k,
            depth >= 2 ==> k <= depth,
            depth < 2 ==> k == 2,
            out@ == padded(tree, k as nat),
        decreases depth - k,
    {
        let ghost below = out@;
        let layer: Vec<(YmlValue, YmlValue)> = vec![(YmlValue::String(String::new()), out)];
        proof {
            lemma_view_mapping(layer);
            assert(crate::value::entry_views(layer) =~= seq![
                (Tree::Text(Seq::empty()), below),
            ]);
        }
        out = YmlValue::Mapping(layer);
        k = k + 1;
    }
    assert(depth < 2 ==> padded(tree, depth as nat) == padded(tree, 2));
    out
}

/// The record of what was written at each open level of nesting. The number
/// of frames is the depth; no frame means that no document was begun.
#[derive(Debug)]
pub struct Tracker {
    depth: Vec<LastBlockType>,
}

impl View for Tracker {
    type V = Seq<LastBlockType>;

    closed spec fn view(&self) -> Seq<LastBlockType> {
        self.depth@
    }
}

impl Default for Tracker {
    fn default() -> (t: Tracker)
        ensures
            t@ == Seq::<LastBlockType>::empty(),
            t.wf(),
    {
        Tracker { depth: Vec::new() }
    }
}

impl Tracker {
    /// Whether the stack is one that a tracker can hold.
    pub open spec fn wf(&self) -> bool {
        well_formed(self@)
    }

    /// A tracker with no frame.
    pub fn new() -> (t: Tracker)
        ensures
            t@ == Seq::<LastBlockType>::empty(),
            t.wf(),
    {
        Tracker { depth: Vec::new() }
    }

    /// Whether the stack is one that a tracker can hold.
    pub fn is_well_formed(&self) -> (b: bool)
        ensures
            b == self.wf(),
    {
        let len = self.depth.len();
        let mut i: usize = 0;
        while i < len
            invariant
                i <= len,
                len == self.depth.len(),
                forall|j: int| 0 <= j < i ==> frame_fits(self.depth@, j),
            decreases len - i,
        {
            let fits = match self.depth[i] {
                LastBlockType::Fresh | LastBlockType::Reset => len == 1,
                LastBlockType::Message | LastBlockType::BlockMessage => true,
                LastBlockType::Indent => i == len - 1 && i >= 1 && matches!(
                    self.depth[i - 1],
                    LastBlockType::Message
                ),
                LastBlockType::BlockIndent => i == len - 1 && i >= 1 && matches!(
                    self.depth[i - 1],
                    LastBlockType::BlockMessage
                ),
                LastBlockType::KeyValue => false,
            };
            if !fits {
                assert(!frame_fits(self.depth@, i as int));
                return false;
            }
            i = i + 1;
        }
        true
    }

    /// The frames, from the outermost to the innermost.
    pub fn frames(&self) -> (out: Vec<LastBlockType>)
        ensures
            out@ == self@,
    {
        let mut out: Vec<LastBlockType> = Vec::new();
        let mut i: usize = 0;
        while i < self.depth.len()
            invariant
                i <= self.depth.len(),
                out@ == self.depth@.take(i as int),
            decreases self.depth.len() - i,
        {
            out.push(self.depth[i]);
            i = i + 1;
        }
        assert(self.depth@.take(self.depth.len() as int) == self.depth@);
        out
    }

    /// Builds the value of an entry, with the frames that mark where the
    /// entry and its children end.
    ///
    /// Fails on the first thing that is wrong with the entry or, after it,
    /// with its children in order.
    pub fn build_value(block: &Block) -> (r: Result<(YmlValue, Vec<LastBlockType>), LogError>)
        ensures
            match r {
                Ok((value, trail)) => {
                    &&& block.shape_error() is None
                    &&& value@ == block.tree()
                    &&& trail@ == trail_of(block.message@, block.children)
                },
                Err(e) => block.shape_error() == Some(e),
            },
        decreases block,
    {
        match &block.message {
            MessageType::Unset => Err(LogError::MissingMessage),
            MessageType::Value(value) => match &block.children {
                Some(below) => {
                    if value.is_mapping() {
                        return Err(LogError::InvalidShape);
                    }
                    let mut trees: Vec<YmlValue> = Vec::new();
                    let mut last_depth: Vec<LastBlockType> = Vec::new();
                    let mut i: usize = 0;
                    while i < below.len()
                        invariant
                            i <= below.len(),
                            block.children is Some,
                            block.children->Some_0 == *below,
                            block.message@ is Value,
                            !(block.message@->Value_0 is Mapping),
                            first_child_error(*below, 0) == first_child_error(*below, i as nat),
                            trees.len() == i,
                            forall|j: int|
                                0 <= j < i ==> (#[trigger] trees[j])@ == tree_of(
                                    below[j].message@,
                                    below[j].children,
                                ),
                            last_depth@ == (if i == 0 {
                                Seq::<LastBlockType>::empty()
                            } else {
                                trail_of(below[i - 1].message@, below[i - 1].children)
                            }),
                        decreases below.len() - i,
                    {
                        assert(decreases_to!(block => block.children));
                        assert(decreases_to!(block.children => block.children->Some_0));
                        match Tracker::build_value(&below[i]) {
                            Err(e) => {
                                return Err(e);
                            },
                            Ok((kid, depth)) => {
                                last_depth = depth;
                                trees.push(kid);
                            },
                        }
                        i = i + 1;
                    }
                    let key = value.duplicate();
                    let items = YmlValue::Sequence(trees);
                    let pairs: Vec<(YmlValue, YmlValue)> = vec![(key, items)];
                    proof {
                        lemma_child_trees(*below);
                        lemma_view_sequence(trees);
                        lemma_view_mapping(pairs);
                        assert(crate::value::item_views(trees) =~= child_trees(*below));
                        assert(crate::value::entry_views(pairs) =~= seq![
                            (value@, Tree::Sequence(child_trees(*below))),
                        ]);
                    }
                    Ok((YmlValue::Mapping(pairs), last_depth))
                },
                None => {
                    let trail: Vec<LastBlockType> = vec![LastBlockType::Message];
                    Ok((value.duplicate(), trail))
                },
            },
            MessageType::KeyValue(key, value) => match &block.children {
                Some(_) => Err(LogError::InvalidShape),
                None => {
                    let pairs: Vec<(YmlValue, YmlValue)> = vec![
                        (key.duplicate(), value.duplicate()),
                    ];
                    proof {
                        lemma_view_mapping(pairs);
                        assert(crate::value::entry_views(pairs) =~= seq![(key@, value@)]);
                    }
                    let trail: Vec<LastBlockType> = vec![LastBlockType::KeyValue];
                    Ok((YmlValue::Mapping(pairs), trail))
                },
            },
        }
    }

    /// Whether a value is written as a block: a text that holds a line
    /// break.
    pub fn is_block(value: &YmlValue) -> (b: bool)
        ensures
            b == value@.is_block(),
    {
        value.is_block()
    }

    /// Places a value at the depth of the stack, which holds a frame or
    /// more, and notes on the top frame that a block was written. On an
    /// error the stack is left as it was.
    pub fn indent_string(&mut self, value: YmlValue) -> (r: Result<String, LogError>)
        requires
            old(self).wf(),
            old(self)@.len() >= 1,
        ensures
            final(self).wf(),
            match r {
                Ok(text) => {
                    &&& placed(value@, old(self)@.len()) == Ok::<Seq<char>, LogError>(text@)
                    &&& final(self)@ == (if value@.is_block() {
                        old(self)@.drop_last().push(LastBlockType::BlockMessage)
                    } else {
                        old(self)@
                    })
                },
                Err(e) => {
                    &&& placed(value@, old(self)@.len()) == Err::<Seq<char>, LogError>(e)
                    &&& final(self)@ == old(self)@
                },
            },
    {
        let block = value.is_block();
        let len = self.depth.len();
        let text: String = if len == 1 {
            if block {
                match &value {
                    YmlValue::String(inner) => {
                        let mut out: Vec<char> = Vec::new();
                        out.push('|');
                        out.push('+');
                        out.push(' ');
                        push_all(&mut out, &chars_of(inner.as_str()));
                        assert(out@ == seq!['|', '+', ' '] + inner@);
                        string_of(&out)
                    },
                    _ => vstd::pervasive::unreached(),
                }
            } else {
                render(&value)
            }
        } else {
            let wrapper = pad_value(value, len);
            let rendered = render(&wrapper);
            match splice(rendered.as_str(), len, block) {
                Ok(text) => text,
                Err(e) => {
                    return Err(e);
                },
            }
        };
        if block {
            let _ = self.depth.pop();
            self.depth.push(LastBlockType::BlockMessage);
            proof {
                lemma_replaced_top_well_formed(old(self)@, LastBlockType::BlockMessage);
            }
        }
        Ok(text)
    }

    /// Writes an entry: gives the text to append to the output and moves
    /// the stack on. On an error nothing is written and the stack is left as
    /// it was.
    pub fn serialize(&mut self, block: &mut Block) -> (r: Result<String, LogError>)
        requires
            old(self).wf(),
        ensures
            final(self).wf(),
            *final(block) == *old(block),
            match r {
                Ok(text) => {
                    &&& outcome(old(self)@, old(block).message@, old(block).children) == Ok::<
                        Seq<char>,
                        LogError,
                    >(text@)
                    &&& final(self)@ == advanced(old(self)@, old(block).tree().is_block())
                },
                Err(e) => {
                    &&& outcome(old(self)@, old(block).message@, old(block).children) == Err::<
                        Seq<char>,
                        LogError,
                    >(e)
                    &&& final(self)@ == old(self)@
                },
            },
    {
        let value: YmlValue = match Tracker::build_value(block) {
            Ok((value, _)) => value,
            Err(e) => {
                return Err(e);
            },
        };
        let ghost stack = self@;
        let is_block = value.is_block();
        let len = self.depth.len();
        let mut out: Vec<char> = Vec::new();
        proof {
            lemma_advanced_well_formed(stack, is_block);
        }
        if len == 0 {
            let text = render(&value);
            self.depth.push(if is_block {
                LastBlockType::BlockMessage
            } else {
                LastBlockType::Message
            });
            push_all(&mut out, &chars_of(text.as_str()));
            assert(self.depth@ == advanced(stack, is_block));
        } else {
            let top = self.depth[len - 1];
            assert(frame_fits(stack, len - 1));
            match top {
                LastBlockType::Fresh | LastBlockType::Reset => {
                    let text = render(&value);
                    let _ = self.depth.pop();
                    self.depth.push(if is_block {
                        LastBlockType::BlockMessage
                    } else {
                        LastBlockType::Message
                    });
                    push_all(&mut out, &chars_of(text.as_str()));
                    assert(self.depth@ == advanced(stack, is_block));
                },
                LastBlockType::Message | LastBlockType::BlockMessage => {
                    let body = match self.indent_string(value) {
                        Ok(text) => text,
                        Err(e) => {
                            return Err(e);
                        },
                    };
                    out.push('\n');
                    push_all(&mut out, &chars_of(body.as_str()));
                    assert(self.depth@ =~= advanced(stack, is_block));
                    assert(out@ == prefix_of(stack) + body@);
                },
                LastBlockType::Indent => {
                    let body = match self.indent_string(value) {
                        Ok(text) => text,
                        Err(e) => {
                            return Err(e);
                        },
                    };
                    if !is_block {
                        let _ = self.depth.pop();
                        self.depth.push(LastBlockType::Message);
                    }
                    out.push(':');
                    out.push('\n');
                    push_all(&mut out, &chars_of(body.as_str()));
                    assert(self.depth@ =~= advanced(stack, is_block));
                    assert(out@ == prefix_of(stack) + body@);
                },
                LastBlockType::BlockIndent => {
                    let body = match self.indent_string(value) {
                        Ok(text) => text,
                        Err(e) => {
                            return Err(e);
                        },
                    };
                    if !is_block {
                        let _ = self.depth.pop();
                        self.depth.push(LastBlockType::BlockMessage);
                    }
                    let two: Vec<char> = vec![' ', ' '];
                    assert(two@ == seq![' ', ' ']);
                    out.push('\n');
                    push_all(&mut out, &repeat(&two, len - 2));
                    let ghost lead = out@;
                    out.push('-');
                    out.push(' ');
                    out.push('"');
                    out.push('"');
                    out.push(' ');
                    out.push(':');
                    out.push('\n');
                    assert(out@ == lead + seq!['-', ' ', '"', '"', ' ', ':', '\n']);
                    push_all(&mut out, &chars_of(body.as_str()));
                    assert(self.depth@ =~= advanced(stack, is_block));
                    assert(out@ == prefix_of(stack) + body@);
                },
                LastBlockType::KeyValue => {
                    return vstd::pervasive::unreached();
                },
            }
        }
        trim_end(&mut out);
        Ok(string_of(&out))
    }

    /// Asks for an indent: honoured once after an entry, ignored anywhere
    /// else.
    pub fn indent(&mut self)
        requires
            old(self).wf(),
        ensures
            final(self)@ == indented(old(self)@),
            final(self).wf(),
    {
        let len = self.depth.len();
        if len > 0 {
            match self.depth[len - 1] {
                LastBlockType::Message => {
                    self.depth.push(LastBlockType::Indent);
                },
                LastBlockType::BlockMessage => {
                    self.depth.push(LastBlockType::BlockIndent);
                },
                _ => {},
            }
        }
        proof {
            lemma_indented_well_formed(old(self)@);
        }
    }

    /// Removes one level of nesting, if there is one.
    pub fn dedent(&mut self)
        requires
            old(self).wf(),
        ensures
            final(self)@ == dedented(old(self)@),
            final(self).wf(),
    {
        let _ = self.depth.pop();
        proof {
            lemma_dedented_well_formed(old(self)@);
        }
    }

    /// Forgets every level: the next entry starts a new document.
    pub fn reset(&mut self)
        ensures
            final(self)@ == restarted(old(self)@),
            final(self).wf(),
    {
        self.depth.clear();
        self.depth.push(LastBlockType::Reset);
    }
}

/// An entry's frame in place of the top frame leaves a stack that a tracker
/// can hold.
pub proof fn lemma_replaced_top_well_formed(stack: Seq<LastBlockType>, frame: LastBlockType)
    requires
        well_formed(stack),
        stack.len() >= 1,
        frame is Message || frame is BlockMessage,
    ensures
        well_formed(stack.drop_last().push(frame)),
{
    let after = stack.drop_last().push(frame);
    assert forall|i: int| 0 <= i < after.len() implies frame_fits(after, i) by {
        assert(frame_fits(stack, i));
        if i < after.len() - 1 {
            assert(after[i] == stack[i]);
            if i >= 1 {
                assert(after[i - 1] == stack[i - 1]);
            }
        }
    }
}

/// Writing an entry leaves a stack that a tracker can hold.
pub proof fn lemma_advanced_well_formed(stack: Seq<LastBlockType>, block: bool)
    requires
        well_formed(stack),
    ensures
        well_formed(advanced(stack, block)),
{
    if stack.len() == 0 {
        assert forall|i: int| 0 <= i < advanced(stack, block).len() implies frame_fits(
            advanced(stack, block),
            i,
        ) by {}
    } else {
        lemma_replaced_top_well_formed(stack, frame_of(block));
        lemma_replaced_top_well_formed(stack, LastBlockType::BlockMessage);
    }
}

/// An indent leaves a stack that a tracker can hold.
pub proof fn lemma_indented_well_formed(stack: Seq<LastBlockType>)
    requires
        well_formed(stack),
    ensures
        well_formed(indented(stack)),
{
    let after = indented(stack);
    assert forall|i: int| 0 <= i < after.len() implies frame_fits(after, i) by {
        if i < stack.len() {
            assert(frame_fits(stack, i));
            assert(frame_fits(stack, stack.len() - 1));
        }
    }
}

/// A dedent leaves a stack that a tracker can hold.
pub proof fn lemma_dedented_well_formed(stack: Seq<LastBlockType>)
    requires
        well_formed(stack),
    ensures
        well_formed(dedented(stack)),
{
    let after = dedented(stack);
    assert forall|i: int| 0 <= i < after.len() implies frame_fits(after, i) by {
        assert(frame_fits(stack, i));
        assert(frame_fits(stack, stack.len() - 1));
    }
}

/// The stack after `times` dedents in a row.
pub open spec fn dedented_by(stack: Seq<LastBlockType>, times: nat) -> Seq<LastBlockType>
    decreases times,
{
    if times == 0 {
        stack
    } else {
        dedented_by(dedented(stack), (times - 1) as nat)
    }
}

/// Dedents take one frame each while there are frames and are ignored from
/// then on: the depth never falls below zero, however many dedents are
/// asked for, and the frames that stay are the outermost ones.
pub proof fn lemma_dedent_floors(stack: Seq<LastBlockType>, times: nat)
    ensures
        times <= stack.len() ==> dedented_by(stack, times) == stack.take(stack.len() - times),
        times >= stack.len() ==> dedented_by(stack, times) == Seq::<LastBlockType>::empty(),
        well_formed(stack) ==> well_formed(dedented_by(stack, times)),
    decreases times,
{
    if times == 0 {
        assert(stack.take(stack.len() as int) == stack);
    } else {
        let next = dedented(stack);
        lemma_dedent_floors(next, (times - 1) as nat);
        if well_formed(stack) {
            lemma_dedented_well_formed(stack);
        }
        if stack.len() > 0 && times <= stack.len() {
            assert(next.take(next.len() - (times - 1)) == stack.take(stack.len() - times));
        }
    }
}

/// Two stacks on which the tracker behaves alike: the same stack, or two
/// blank ones.
pub open spec fn alike(a: Seq<LastBlockType>, b: Seq<LastBlockType>) -> bool {
    a == b || (blank(a) && blank(b))
}

/// On two stacks that are alike, an entry gives the same text or the same
/// error and leaves the same stack, and an indent or a dedent leaves stacks
/// that are alike again.
pub proof fn lemma_alike_behaves(
    a: Seq<LastBlockType>,
    b: Seq<LastBlockType>,
    value: Tree,
    block: bool,
)
    requires
        alike(a, b),
    ensures
        emitted(a, value) == emitted(b, value),
        advanced(a, block) == advanced(b, block),
        alike(indented(a), indented(b)),
        alike(dedented(a), dedented(b)),
{
    if a != b {
        assert(advanced(a, block) =~= seq![frame_of(block)]);
        assert(advanced(b, block) =~= seq![frame_of(block)]);
    }
}

/// After a reset the tracker behaves as one that has written nothing,
/// whatever it held before: the next entry gives the same text, or the same
/// error, and leaves the same stack.
pub proof fn lemma_reset_starts_anew(prior: Seq<LastBlockType>, value: Tree, block: bool)
    ensures
        well_formed(restarted(prior)),
        alike(restarted(prior), Seq::empty()),
        emitted(restarted(prior), value) == emitted(Seq::empty(), value),
        advanced(restarted(prior), block) == advanced(Seq::empty(), block),
{
    lemma_alike_behaves(restarted(prior), Seq::empty(), value, block);
}

/// A dedent that follows an indent, with no entry between them, leaves the
/// tracker behaving as before, on every stack without a pending indent: the
/// stack is the same, or both are blank.
pub proof fn lemma_indent_then_dedent(stack: Seq<LastBlockType>)
    requires
        well_formed(stack),
        stack.len() > 0 ==> !(stack.last() is Indent || stack.last() is BlockIndent),
    ensures
        alike(dedented(indented(stack)), stack),
{
    if stack.len() > 0 {
        assert(frame_fits(stack, stack.len() - 1));
        if stack.last() is Message || stack.last() is BlockMessage {
            assert(dedented(indented(stack)) =~= stack);
        } else {
            assert(dedented(indented(stack)) =~= Seq::<LastBlockType>::empty());
        }
    }
}

/// The first entry of a tracker is the renderer's document for its value,
/// with nothing in front of it and no white space at its end; the entry's
/// frame is then the one frame of the stack.
pub proof fn lemma_first_entry(value: Tree, block: bool)
    ensures
        emitted(Seq::empty(), value) == Ok::<Seq<char>, LogError>(trimmed(rendering(value))),
        advanced(Seq::empty(), block) == seq![frame_of(block)],
{
}

/// An entry of one line that follows an entry at the root starts a new
/// document after a line break, and the stack keeps its one frame.
pub proof fn lemma_second_entry_at_root(value: Tree)
    requires
        !value.is_block(),
    ensures
        emitted(seq![LastBlockType::Message], value) == Ok::<Seq<char>, LogError>(
            trimmed(seq!['\n'] + rendering(value)),
        ),
        advanced(seq![LastBlockType::Message], false) == seq![LastBlockType::Message],
{
    let stack = seq![LastBlockType::Message];
    assert(stack.last() is Message);
    assert(advanced(stack, false) =~= stack);
}

/// An entry that follows an indent asked for after an entry of one line
/// comes after a colon and a line break, one level deeper than that
/// entry, which so becomes a key; the stack grows by the entry's frame.
pub proof fn lemma_entry_after_indent(stack: Seq<LastBlockType>, value: Tree, block: bool)
    requires
        stack.len() > 0,
        stack.last() is Message,
    ensures
        indented(stack) == stack.push(LastBlockType::Indent),
        emitted(indented(stack), value) == (match placed(value, stack.len() + 1) {
            Ok(text) => Ok(trimmed(seq![':', '\n'] + text)),
            Err(e) => Err(e),
        }),
        advanced(indented(stack), block) == stack.push(frame_of(block)),
{
    let pending = stack.push(LastBlockType::Indent);
    assert(pending.last() is Indent);
    assert(!blank(pending));
    assert(pending.drop_last() =~= stack);
}

/// An entry that follows an entry at the same depth, with no indent
/// between them, comes after a line break at that depth: it is a further
/// item, not a key. The depth stays, and so do the frames below the top.
pub proof fn lemma_entry_after_entry(stack: Seq<LastBlockType>, value: Tree, block: bool)
    requires
        stack.len() > 0,
        stack.last() is Message || stack.last() is BlockMessage,
    ensures
        emitted(stack, value) == (match placed(value, stack.len()) {
            Ok(text) => Ok(trimmed(seq!['\n'] + text)),
            Err(e) => Err(e),
        }),
        advanced(stack, block) == stack.drop_last().push(
            if stack.last() is BlockMessage {
                LastBlockType::BlockMessage
            } else {
                frame_of(block)
            },
        ),
{
}

/// A block below the root is a literal block: what is cut out of the
/// rendered wrapper is reshaped under the header `|-`, and the frame it
/// leaves is that of a block.
pub proof fn lemma_block_is_literal(value: Tree, depth: nat, rendered: Seq<char>)
    requires
        depth >= 2,
        value.is_block(),
        rendering(padded(value, depth)) == rendered,
    ensures
        placed(value, depth) == (match spliced(rendered, depth, true) {
            Some(fragment) => Ok(fragment),
            None => Err(LogError::RenderInvariantViolation),
        }),
        frame_of(true) == LastBlockType::BlockMessage,
{
}

/// An entry that follows an indent asked for after a block comes after
/// an item with the empty key, written at the depth of the block, and one
/// level deeper than the block; the frame it leaves is that of a block.
pub proof fn lemma_entry_after_block_indent(stack: Seq<LastBlockType>, value: Tree, block: bool)
    requires
        stack.len() > 0,
        stack.last() is BlockMessage,
    ensures
        indented(stack) == stack.push(LastBlockType::BlockIndent),
        emitted(indented(stack), value) == (match placed(value, stack.len() + 1) {
            Ok(text) => Ok(
                trimmed(
                    seq!['\n'] + repeated(seq![' ', ' '], (stack.len() - 1) as nat) + seq![
                        '-',
                        ' ',
                        '"',
                        '"',
                        ' ',
                        ':',
                        '\n',
                    ] + text,
                ),
            ),
            Err(e) => Err(e),
        }),
        advanced(indented(stack), block) == stack.push(LastBlockType::BlockMessage),
{
    let pending = stack.push(LastBlockType::BlockIndent);
    assert(pending.last() is BlockIndent);
    assert(!blank(pending));
    assert(pending.drop_last() =~= stack);
}

/// After as many dedents as the stack has frames, or more, the tracker is
/// as new: an entry with nothing wrong with it is written without an
/// error, as the first entry of a new tracker is, and is then the one frame
/// of the stack.
pub proof fn lemma_entry_after_dedents(
    stack: Seq<LastBlockType>,
    times: nat,
    message: MessageShape,
    children: Option<Vec<Block>>,
)
    requires
        times >= stack.len(),
        shape_error_of(message, children) is None,
    ensures
        dedented_by(stack, times) == Seq::<LastBlockType>::empty(),
        outcome(dedented_by(stack, times), message, children) == outcome(
            Seq::empty(),
            message,
            children,
        ),
        outcome(Seq::empty(), message, children) == Ok::<Seq<char>, LogError>(
            trimmed(rendering(tree_of(message, children))),
        ),
        advanced(dedented_by(stack, times), tree_of(message, children).is_block()) == seq![
            frame_of(tree_of(message, children).is_block()),
        ],
{
    lemma_dedent_floors(stack, times);
}

} // verus!
