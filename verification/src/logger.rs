//! The logger: a depth tracker, a threshold and an output.

use vstd::prelude::*;
use vstd::utf8::encode_utf8;
use crate::error::LogError;
use crate::message::{tree_of, Block, MessageShape, MessageType};
use crate::text::{chars_of, find, find_first, find_from, lemma_find_from, matches_at, string_of, sub_chars};
use crate::tracker::{
    advanced, dedented, dedented_by, indented, lemma_dedent_floors, outcome, restarted,
    well_formed, LastBlockType, Tracker,
};
use crate::value::{Tree, YmlValue};

verus! {

/// How severe an entry is, from the least to the most severe.
#[derive(Debug, Clone, Copy, PartialEq, Eq, PartialOrd, Ord, Structural)]
pub enum Level {
    /// The finest detail.
    Trace,
    /// What helps to find a fault.
    Debug,
    /// What is worth knowing. An entry without a level counts as this.
    Info,
    /// What may be wrong.
    Warn,
    /// What is wrong.
    Error,
}

impl Level {
    /// The place of the level in the order of severity.
    pub open spec fn rank(self) -> nat {
        match self {
            Level::Trace => 0,
            Level::Debug => 1,
            Level::Info => 2,
            Level::Warn => 3,
            Level::Error => 4,
        }
    }

    /// The name of the level.
    pub open spec fn label(self) -> Seq<char> {
        match self {
            Level::Trace => "Trace"@,
            Level::Debug => "Debug"@,
            Level::Info => "Info"@,
            Level::Warn => "Warn"@,
            Level::Error => "Error"@,
        }
    }

    /// The name of the level.
    pub fn name(&self) -> (out: &'static str)
        ensures
            out@ == self.label(),
    {
        match self {
            Level::Trace => "Trace",
            Level::Debug => "Debug",
            Level::Info => "Info",
            Level::Warn => "Warn",
            Level::Error => "Error",
        }
    }

    /// The place of the level in the order of severity.
    pub fn ordinal(&self) -> (n: u8)
        ensures
            n == self.rank(),
    {
        match self {
            Level::Trace => 0,
            Level::Debug => 1,
            Level::Info => 2,
            Level::Warn => 3,
            Level::Error => 4,
        }
    }
}

/// The level of an entry on which none was set.
pub open spec fn level_or_default(level: Option<Level>) -> Level {
    match level {
        Some(level) => level,
        None => Level::Info,
    }
}

/// Whether an entry of the given level is written under a threshold: it is
/// where it is at least as severe as the threshold.
pub open spec fn passes(threshold: Level, level: Option<Level>) -> bool {
    threshold.rank() <= level_or_default(level).rank()
}

/// A text message split at its first colon into a key and a value, neither
/// of which holds that colon. `None` for a message that is no text, or a
/// text without a colon.
pub open spec fn split_message(message: MessageShape) -> Option<MessageShape> {
    match message {
        MessageShape::Value(Tree::Text(s)) => match find(s, seq![':']) {
            Some(at) => Some(
                MessageShape::KeyValue(Tree::Text(s.take(at)), Tree::Text(s.skip(at + 1))),
            ),
            None => None,
        },
        _ => None,
    }
}

/// What a run of actions works on: the tracker's stack, what the output
/// holds, the entry's message and level, and whether the entry was written.
pub struct LogState {
    /// The tracker's stack.
    pub stack: Seq<LastBlockType>,
    /// What the output holds.
    pub sink: Seq<u8>,
    /// The entry's message.
    pub message: MessageShape,
    /// The entry's level.
    pub level: Option<Level>,
    /// Whether an action has written the entry.
    pub printed: bool,
}

/// Writing the entry: nothing happens to an entry below the threshold; any
/// other entry is rendered on the stack, its text is appended to the output
/// as UTF-8, and the stack moves on.
pub open spec fn write_step(st: LogState, threshold: Level, children: Option<Vec<Block>>) -> Result<
    LogState,
    LogError,
> {
    if !passes(threshold, st.level) {
        Ok(st)
    } else {
        match outcome(st.stack, st.message, children) {
            Err(e) => Err(e),
            Ok(text) => Ok(
                LogState {
                    stack: advanced(st.stack, tree_of(st.message, children).is_block()),
                    sink: st.sink + encode_utf8(text),
                    ..st
                },
            ),
        }
    }
}

/// One action: `+` indents, `-` dedents, `r` resets, `k` splits the message
/// at its first colon, `_` writes the entry, and `T`, `D`, `I`, `W`, `E` set
/// its level. Any other character is an error.
pub open spec fn act(st: LogState, c: char, threshold: Level, children: Option<Vec<Block>>) -> Result<
    LogState,
    LogError,
> {
    if c == '+' {
        Ok(LogState { stack: indented(st.stack), ..st })
    } else if c == '-' {
        Ok(LogState { stack: dedented(st.stack), ..st })
    } else if c == 'r' {
        Ok(LogState { stack: restarted(st.stack), ..st })
    } else if c == 'k' {
        match split_message(st.message) {
            Some(message) => Ok(LogState { message, ..st }),
            None => Err(LogError::UnsplittableMessage),
        }
    } else if c == '_' {
        match write_step(st, threshold, children) {
            Ok(next) => Ok(LogState { printed: true, ..next }),
            Err(e) => Err(e),
        }
    } else if c == 'T' {
        Ok(LogState { level: Some(Level::Trace), ..st })
    } else if c == 'D' {
        Ok(LogState { level: Some(Level::Debug), ..st })
    } else if c == 'I' {
        Ok(LogState { level: Some(Level::Info), ..st })
    } else if c == 'W' {
        Ok(LogState { level: Some(Level::Warn), ..st })
    } else if c == 'E' {
        Ok(LogState { level: Some(Level::Error), ..st })
    } else {
        Err(LogError::UnknownActionCharacter(c))
    }
}

/// The actions from left to right. The run ends at the first action that
/// fails: what the actions before it did stays done.
pub open spec fn run(st: LogState, ops: Seq<char>, threshold: Level, children: Option<Vec<Block>>) -> (
    LogState,
    Option<LogError>,
)
    decreases ops.len(),
{
    if ops.len() == 0 {
        (st, None)
    } else {
        match act(st, ops[0], threshold, children) {
            Err(e) => (st, Some(e)),
            Ok(next) => run(next, ops.skip(1), threshold, children),
        }
    }
}

/// A whole call: the actions, and then, where none of them failed and none
/// of them wrote the entry, the writing of the entry.
pub open spec fn logged(
    st: LogState,
    ops: Seq<char>,
    threshold: Level,
    children: Option<Vec<Block>>,
) -> (LogState, Option<LogError>) {
    let (after, failed) = run(st, ops, threshold, children);
    if failed is Some || after.printed {
        (after, failed)
    } else {
        match write_step(after, threshold, children) {
            Ok(end) => (end, None),
            Err(e) => (after, Some(e)),
        }
    }
}

/// The actions that an optional action string stands for.
pub open spec fn actions_of(actions: Option<&str>) -> Seq<char> {
    match actions {
        Some(s) => s@,
        None => Seq::empty(),
    }
}

/// Appends `bytes` to `sink`.
fn append_bytes(sink: &mut Vec<u8>, bytes: &[u8])
    ensures
        final(sink)@ == old(sink)@ + bytes@,
{
    let mut i: usize = 0;
    while i < bytes.len()
        invariant
            i <= bytes.len(),
            sink@ == old(sink)@ + bytes@.take(i as int),
        decreases bytes.len() - i,
    {
        sink.push(bytes[i]);
        i = i + 1;
    }
    assert(bytes@.take(bytes.len() as int) == bytes@);
}

/// A logger: the depth tracker, the least level that is written, and the
/// output, a buffer of bytes that grows with each entry.
#[derive(Debug)]
pub struct YmLog {
    tracker: Tracker,
    log_level: Level,
    logger: Option<Vec<u8>>,
}

impl Default for YmLog {
    fn default() -> (log: YmLog)
        ensures
            log.stack() == Seq::<LastBlockType>::empty(),
            log.threshold() == Level::Warn,
            log.sink() is None,
            log.wf(),
    {
        YmLog { tracker: Tracker::new(), log_level: Level::Warn, logger: None }
    }
}

impl YmLog {
    /// The tracker's stack.
    pub closed spec fn stack(&self) -> Seq<LastBlockType> {
        self.tracker@
    }

    /// The least level that is written.
    pub closed spec fn threshold(&self) -> Level {
        self.log_level
    }

    /// What the output holds, where there is one.
    pub closed spec fn sink(&self) -> Option<Seq<u8>> {
        match self.logger {
            Some(buffer) => Some(buffer@),
            None => None,
        }
    }

    /// Whether the stack is one that a tracker can hold.
    pub open spec fn wf(&self) -> bool {
        well_formed(self.stack())
    }

    /// The state on which a call on `block` begins.
    pub open spec fn state(&self, block: &Block) -> LogState
        recommends
            self.sink() is Some,
    {
        LogState {
            stack: self.stack(),
            sink: self.sink()->Some_0,
            message: block.message@,
            level: block.log_level,
            printed: false,
        }
    }

    /// A logger without an output, which writes warnings and errors.
    pub fn new() -> (log: YmLog)
        ensures
            log.stack() == Seq::<LastBlockType>::empty(),
            log.threshold() == Level::Warn,
            log.sink() is None,
            log.wf(),
    {
        YmLog { tracker: Tracker::new(), log_level: Level::Warn, logger: None }
    }

    /// Sets the output, in place of any output set before. What `writable`
    /// holds already stays in front of what is written.
    pub fn set_output(&mut self, writable: Vec<u8>)
        ensures
            final(self).sink() == Some(writable@),
            final(self).stack() == old(self).stack(),
            final(self).threshold() == old(self).threshold(),
    {
        self.logger = Some(writable);
    }

    /// Sets the least level that is written.
    pub fn set_level(&mut self, level: Level)
        ensures
            final(self).threshold() == level,
            final(self).stack() == old(self).stack(),
            final(self).sink() == old(self).sink(),
    {
        self.log_level = level;
    }

    /// The least level that is written.
    pub fn level(&self) -> (level: Level)
        ensures
            level == self.threshold(),
    {
        self.log_level
    }

    /// What the output holds, where there is one.
    pub fn output(&self) -> (out: Option<&Vec<u8>>)
        ensures
            match out {
                Some(buffer) => self.sink() == Some(buffer@),
                None => self.sink() is None,
            },
    {
        match &self.logger {
            Some(buffer) => Some(buffer),
            None => None,
        }
    }

    /// Takes what the output holds and leaves it empty.
    pub fn drain(&mut self) -> (out: Vec<u8>)
        ensures
            final(self).stack() == old(self).stack(),
            final(self).threshold() == old(self).threshold(),
            match old(self).sink() {
                Some(held) => out@ == held && final(self).sink() == Some(Seq::<u8>::empty()),
                None => out@ == Seq::<u8>::empty() && final(self).sink() is None,
            },
    {
        match self.logger.take() {
            Some(buffer) => {
                self.logger = Some(Vec::new());
                buffer
            },
            None => Vec::new(),
        }
    }

    /// Whether the stack is one that a tracker can hold.
    pub fn is_well_formed(&self) -> (b: bool)
        ensures
            b == self.wf(),
    {
        self.tracker.is_well_formed()
    }

    /// The frames of the tracker, from the outermost to the innermost.
    pub fn frames(&self) -> (out: Vec<LastBlockType>)
        ensures
            out@ == self.stack(),
    {
        self.tracker.frames()
    }

    /// Writes the entry to the output, unless its level is below the
    /// threshold or there is no output.
    fn write(&mut self, block: &mut Block) -> (r: Result<(), LogError>)
        requires
            old(self).wf(),
        ensures
            final(self).wf(),
            final(self).threshold() == old(self).threshold(),
            *final(block) == *old(block),
            old(self).sink() is None ==> r is Ok && final(self).stack() == old(self).stack()
                && final(self).sink() is None,
            old(self).sink() is Some ==> final(self).sink() is Some && (match write_step(
                old(self).state(old(block)),
                old(self).threshold(),
                old(block).children,
            ) {
                Ok(next) => r is Ok && final(self).state(old(block)) == next,
                Err(e) => r == Err::<(), LogError>(e) && final(self).state(old(block)) == old(
                    self,
                ).state(old(block)),
            }),
    {
        let level: Level = match block.log_level {
            Some(level) => level,
            None => Level::Info,
        };
        if self.log_level.ordinal() > level.ordinal() {
            return Ok(());
        }
        if self.logger.is_none() {
            return Ok(());
        }
        let text = match self.tracker.serialize(block) {
            Ok(text) => text,
            Err(e) => {
                return Err(e);
            },
        };
        match &mut self.logger {
            Some(buffer) => {
                append_bytes(buffer, text.as_str().as_bytes());
            },
            None => {},
        }
        Ok(())
    }

    /// Splits a text message at its first colon into a key and a value.
    /// Fails, and leaves the entry as it was, where the message is no text
    /// or holds no colon.
    fn split_block(&mut self, block: &mut Block) -> (r: Result<(), LogError>)
        ensures
            *final(self) == *old(self),
            *final(block) == (Block { message: final(block).message, ..*old(block) }),
            match split_message(old(block).message@) {
                Some(message) => r is Ok && final(block).message@ == message,
                None => r == Err::<(), LogError>(LogError::UnsplittableMessage) && *final(block)
                    == *old(block),
            },
    {
        let parts: Option<(String, String)> = match &block.message {
            MessageType::Value(YmlValue::String(msg)) => {
                let chars: Vec<char> = chars_of(msg.as_str());
                let colon: Vec<char> = vec![':'];
                assert(colon@ == seq![':']);
                match find_first(&chars, &colon) {
                    Some(at) => {
                        proof {
                            lemma_find_from(chars@, colon@, 0);
                            assert(find_from(chars@, colon@, 0) == Some(at as int));
                            assert(matches_at(chars@, colon@, at as int));
                            assert(at + 1 <= chars.len());
                        }
                        let key = sub_chars(&chars, 0, at);
                        let value = sub_chars(&chars, at + 1, chars.len());
                        Some((string_of(&key), string_of(&value)))
                    },
                    None => None,
                }
            },
            _ => None,
        };
        match parts {
            Some((key, value)) => {
                block.message = MessageType::KeyValue(YmlValue::String(key), YmlValue::String(value));
                Ok(())
            },
            None => Err(LogError::UnsplittableMessage),
        }
    }

    /// Applies the actions to the entry and the tracker, from left to right,
    /// and writes the entry: wherever an action says so, or once at the end
    /// where none does.
    ///
    /// Without an output nothing is done. The call ends at the first action
    /// that fails; what the actions before it did stays done.
    pub fn log(&mut self, block: &mut Block, actions: Option<&str>) -> (r: Result<(), LogError>)
        requires
            old(self).wf(),
        ensures
            final(self).wf(),
            final(self).threshold() == old(self).threshold(),
            *final(block) == (Block {
                message: final(block).message,
                log_level: final(block).log_level,
                ..*old(block)
            }),
            old(self).sink() is None ==> {
                &&& r == Err::<(), LogError>(LogError::NoOutput)
                &&& final(self).sink() is None
                &&& final(self).stack() == old(self).stack()
                &&& *final(block) == *old(block)
            },
            old(self).sink() is Some ==> {
                let (end, failed) = logged(
                    old(self).state(old(block)),
                    actions_of(actions),
                    old(self).threshold(),
                    old(block).children,
                );
                &&& final(self).sink() == Some(end.sink)
                &&& final(self).stack() == end.stack
                &&& final(block).message@ == end.message
                &&& final(block).log_level == end.level
                &&& match r {
                    Ok(_) => failed is None,
                    Err(e) => failed == Some(e),
                }
            },
    {
        if self.logger.is_none() {
            return Err(LogError::NoOutput);
        }
        let ops: Vec<char> = match actions {
            Some(s) => chars_of(s),
            None => Vec::new(),
        };
        let ghost start = self.state(block);
        let ghost threshold = self.threshold();
        let ghost children = block.children;
        let mut has_printed = false;
        let mut i: usize = 0;
        proof {
            assert(ops@.skip(0) == ops@);
        }
        while i < ops.len()
            invariant
                i <= ops.len(),
                ops@ == actions_of(actions),
                self.wf(),
                old(self).sink() is Some,
                self.sink() is Some,
                self.threshold() == threshold,
                threshold == old(self).threshold(),
                children == old(block).children,
                *block == (Block {
                    message: block.message,
                    log_level: block.log_level,
                    ..*old(block)
                }),
                start == old(self).state(old(block)),
                run(start, ops@, threshold, children) == run(
                    LogState { printed: has_printed, ..self.state(block) },
                    ops@.skip(i as int),
                    threshold,
                    children,
                ),
            decreases ops.len() - i,
        {
            let c = ops[i];
            let ghost before = LogState { printed: has_printed, ..self.state(block) };
            proof {
                assert(ops@.skip(i as int)[0] == c);
                assert(ops@.skip(i as int).skip(1) == ops@.skip(i + 1));
            }
            if c == '+' {
                self.tracker.indent();
            } else if c == '-' {
                self.tracker.dedent();
            } else if c == 'r' {
                self.tracker.reset();
            } else if c == 'k' {
                match self.split_block(block) {
                    Ok(_) => {},
                    Err(e) => {
                        assert(act(before, c, threshold, children) == Err::<LogState, LogError>(e));
                        return Err(e);
                    },
                }
            } else if c == '_' {
                match self.write(block) {
                    Ok(_) => {},
                    Err(e) => {
                        assert(act(before, c, threshold, children) == Err::<LogState, LogError>(e));
                        return Err(e);
                    },
                }
                has_printed = true;
            } else if c == 'T' {
                block.set_log_level(Level::Trace);
            } else if c == 'D' {
                block.set_log_level(Level::Debug);
            } else if c == 'I' {
                block.set_log_level(Level::Info);
            } else if c == 'W' {
                block.set_log_level(Level::Warn);
            } else if c == 'E' {
                block.set_log_level(Level::Error);
            } else {
                assert(act(before, c, threshold, children) == Err::<LogState, LogError>(
                    LogError::UnknownActionCharacter(c),
                ));
                return Err(LogError::UnknownActionCharacter(c));
            }
            proof {
                assert(act(before, c, threshold, children) == Ok::<LogState, LogError>(
                    LogState { printed: has_printed, ..self.state(block) },
                ));
            }
            i = i + 1;
        }
        proof {
            assert(ops@.skip(ops.len() as int).len() == 0);
        }
        if !has_printed {
            match self.write(block) {
                Ok(_) => {},
                Err(e) => {
                    return Err(e);
                },
            }
        }
        Ok(())
    }
}

/// Dedents alone never fail, however many there are: they take the
/// innermost frames, stop at the empty stack, and touch nothing else.
pub proof fn lemma_run_of_dedents(
    st: LogState,
    ops: Seq<char>,
    threshold: Level,
    children: Option<Vec<Block>>,
)
    requires
        forall|i: int| 0 <= i < ops.len() ==> ops[i] == '-',
    ensures
        run(st, ops, threshold, children) == (
            LogState { stack: dedented_by(st.stack, ops.len()), ..st },
            None::<LogError>,
        ),
        ops.len() >= st.stack.len() ==> run(st, ops, threshold, children).0.stack
            == Seq::<LastBlockType>::empty(),
    decreases ops.len(),
{
    if ops.len() > 0 {
        let next = LogState { stack: dedented(st.stack), ..st };
        assert(ops[0] == '-');
        assert(act(st, ops[0], threshold, children) == Ok::<LogState, LogError>(next));
        assert forall|i: int| 0 <= i < ops.skip(1).len() implies ops.skip(1)[i] == '-' by {
            assert(ops.skip(1)[i] == ops[i + 1]);
        }
        lemma_run_of_dedents(next, ops.skip(1), threshold, children);
    }
    lemma_dedent_floors(st.stack, ops.len());
}

} // verus!
