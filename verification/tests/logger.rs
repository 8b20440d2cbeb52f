//! The logger and its action strings.

use ymlog::error::LogError;
use ymlog::logger::{Level, YmLog};
use ymlog::message::{Block, MessageType};
use ymlog::tracker::LastBlockType::{Indent, Message, Reset};
use ymlog::value::YmlValue;

fn text(s: &str) -> YmlValue {
    YmlValue::String(s.to_string())
}

fn entry(message: &str) -> Block {
    let mut block = Block::new();
    block.set_message(text(message));
    block
}

fn logger() -> YmLog {
    let mut log = YmLog::new();
    log.set_output(Vec::new());
    log.set_level(Level::Trace);
    log
}

fn written(log: &YmLog) -> String {
    String::from_utf8(log.output().unwrap().clone()).unwrap()
}

#[test]
fn a_new_logger_has_no_output_and_writes_warnings() {
    for log in [YmLog::new(), YmLog::default()] {
        assert!(log.output().is_none());
        assert_eq!(log.level(), Level::Warn);
        assert_eq!(log.frames(), vec![]);
    }
}

#[test]
fn nothing_written_leaves_the_output_empty() {
    let log = logger();
    assert_eq!(written(&log), "");
}

#[test]
fn set_output_keeps_what_the_buffer_holds() {
    let mut log = YmLog::new();
    log.set_output(b"# log\n".to_vec());
    log.set_level(Level::Trace);
    log.log(&mut entry("one"), None).unwrap();
    assert_eq!(written(&log), "# log\n---\none");
}

#[test]
fn logging_without_an_output_fails() {
    let mut log = YmLog::new();
    log.set_level(Level::Trace);
    let mut block = entry("one");
    assert_eq!(log.log(&mut block, Some("+E_")), Err(LogError::NoOutput));
    assert_eq!(log.frames(), vec![]);
    assert!(block.log_level.is_none());
    assert!(log.output().is_none());
}

#[test]
fn an_entry_is_written_once_without_an_emit_action() {
    let mut log = logger();
    log.log(&mut entry("one"), None).unwrap();
    log.log(&mut entry("two"), Some("")).unwrap();
    log.log(&mut entry("three"), Some("+")).unwrap();
    assert_eq!(written(&log), "---\none\n---\ntwo:\n  - three");
}

#[test]
fn an_entry_is_written_at_each_emit_action() {
    let mut log = logger();
    log.log(&mut entry("again"), Some("__+_")).unwrap();
    assert_eq!(written(&log), "---\nagain\n---\nagain:\n  - again");
    assert_eq!(log.frames(), vec![Message, Message]);
}

#[test]
fn actions_after_the_emit_action_prepare_the_next_entry() {
    let mut log = logger();
    log.log(&mut entry("one"), Some("_+")).unwrap();
    assert_eq!(log.frames(), vec![Message, Indent]);
    log.log(&mut entry("two"), None).unwrap();
    assert_eq!(written(&log), "---\none:\n  - two");
}

#[test]
fn an_unknown_action_ends_the_call() {
    let mut log = logger();
    log.log(&mut entry("one"), None).unwrap();
    let mut block = entry("two");
    assert_eq!(log.log(&mut block, Some("+Dx_")), Err(LogError::UnknownActionCharacter('x')));
    // What came before the unknown action was done, what came after was not.
    assert_eq!(log.frames(), vec![Message, Indent]);
    assert_eq!(block.log_level, Some(Level::Debug));
    assert_eq!(written(&log), "---\none");
}

#[test]
fn an_unknown_action_after_an_emit_leaves_the_entry_written() {
    let mut log = logger();
    assert_eq!(log.log(&mut entry("one"), Some("_?+")), Err(LogError::UnknownActionCharacter('?')));
    assert_eq!(written(&log), "---\none");
    assert_eq!(log.frames(), vec![Message]);
}

#[test]
fn every_character_but_the_actions_is_unknown() {
    for c in " abcdefghijlmnopqstuvwxyzABCFGHJKLMNOPQRSUVXYZ0123456789*=.,\n\té".chars() {
        let mut log = logger();
        let actions = c.to_string();
        assert_eq!(
            log.log(&mut entry("one"), Some(&actions)),
            Err(LogError::UnknownActionCharacter(c))
        );
        assert_eq!(written(&log), "");
    }
}

#[test]
fn level_letters_set_the_level_and_the_last_one_wins() {
    for (actions, level) in [
        ("T", Level::Trace),
        ("D", Level::Debug),
        ("I", Level::Info),
        ("W", Level::Warn),
        ("E", Level::Error),
        ("TDIWE", Level::Error),
        ("EW_T", Level::Trace),
    ] {
        let mut log = logger();
        let mut block = entry("one");
        log.log(&mut block, Some(actions)).unwrap();
        assert_eq!(block.log_level, Some(level));
    }
}

#[test]
fn entries_below_the_threshold_are_not_written() {
    let mut log = YmLog::new();
    log.set_output(Vec::new());
    // The threshold is Warn; an entry without a level counts as Info.
    log.log(&mut entry("quiet"), None).unwrap();
    log.log(&mut entry("quiet"), Some("D_I_")).unwrap();
    assert_eq!(written(&log), "");
    assert_eq!(log.frames(), vec![]);
    log.log(&mut entry("loud"), Some("W")).unwrap();
    assert_eq!(written(&log), "---\nloud");
    log.log(&mut entry("louder"), Some("E")).unwrap();
    assert_eq!(written(&log), "---\nloud\n---\nlouder");
}

#[test]
fn the_level_at_the_emit_action_decides() {
    let mut log = YmLog::new();
    log.set_output(Vec::new());
    log.set_level(Level::Info);
    log.log(&mut entry("now"), Some("D_I_E")).unwrap();
    assert_eq!(written(&log), "---\nnow");
}

#[test]
fn the_threshold_admits_its_own_level() {
    for (threshold, level, passes) in [
        (Level::Trace, Level::Trace, true),
        (Level::Debug, Level::Trace, false),
        (Level::Info, Level::Info, true),
        (Level::Warn, Level::Info, false),
        (Level::Error, Level::Warn, false),
        (Level::Error, Level::Error, true),
    ] {
        let mut log = YmLog::new();
        log.set_output(Vec::new());
        log.set_level(threshold);
        assert_eq!(log.level(), threshold);
        let mut block = entry("one");
        block.set_log_level(level);
        log.log(&mut block, None).unwrap();
        assert_eq!(!written(&log).is_empty(), passes);
    }
}

#[test]
fn levels_are_ordered_by_severity() {
    let all = [Level::Trace, Level::Debug, Level::Info, Level::Warn, Level::Error];
    for (i, level) in all.iter().enumerate() {
        assert_eq!(level.ordinal() as usize, i);
    }
    assert!(Level::Trace < Level::Debug && Level::Warn < Level::Error);
    assert_eq!(Level::Trace.name(), "Trace");
    assert_eq!(Level::Debug.name(), "Debug");
    assert_eq!(Level::Info.name(), "Info");
    assert_eq!(Level::Warn.name(), "Warn");
    assert_eq!(Level::Error.name(), "Error");
}

#[test]
fn split_makes_a_key_and_a_value_at_the_first_colon() {
    let mut log = logger();
    let mut block = entry("key:value:more");
    log.log(&mut block, Some("k")).unwrap();
    assert!(matches!(
        &block.message,
        MessageType::KeyValue(k, v) if *k == text("key") && *v == text("value:more")
    ));
    assert_eq!(written(&log), "---\nkey: \"value:more\"");
}

#[test]
fn split_keeps_the_white_space_around_the_colon() {
    let mut log = logger();
    let mut block = entry("key : value");
    log.log(&mut block, Some("k")).unwrap();
    assert!(matches!(
        &block.message,
        MessageType::KeyValue(k, v) if *k == text("key ") && *v == text(" value")
    ));
}

#[test]
fn split_at_a_colon_at_either_end() {
    let mut block = entry(":");
    logger().log(&mut block, Some("k")).unwrap();
    assert!(matches!(
        &block.message,
        MessageType::KeyValue(k, v) if *k == text("") && *v == text("")
    ));
}

#[test]
fn split_fails_without_a_colon() {
    let mut log = logger();
    let mut block = entry("no colon");
    assert_eq!(log.log(&mut block, Some("+k_")), Err(LogError::UnsplittableMessage));
    assert!(matches!(&block.message, MessageType::Value(v) if *v == text("no colon")));
    assert_eq!(written(&log), "");
}

#[test]
fn split_fails_on_anything_but_a_text() {
    let mut number = Block::new();
    number.set_message(YmlValue::Number(1));
    assert_eq!(logger().log(&mut number, Some("k")), Err(LogError::UnsplittableMessage));

    let mut list = Block::new();
    list.set_message(YmlValue::Sequence(vec![text("a:b")]));
    assert_eq!(logger().log(&mut list, Some("k")), Err(LogError::UnsplittableMessage));

    assert_eq!(logger().log(&mut Block::new(), Some("k")), Err(LogError::UnsplittableMessage));
}

#[test]
fn split_fails_on_a_message_that_was_split() {
    let mut log = logger();
    let mut block = entry("a:b:c");
    assert_eq!(log.log(&mut block, Some("k_k")), Err(LogError::UnsplittableMessage));
    assert_eq!(written(&log), "---\na: \"b:c\"");
}

#[test]
fn an_entry_without_a_message_is_refused_when_it_is_written() {
    let mut log = logger();
    log.log(&mut entry("one"), None).unwrap();
    let mut block = Block::new();
    assert_eq!(log.log(&mut block, Some("+E")), Err(LogError::MissingMessage));
    assert_eq!(log.frames(), vec![Message, Indent]);
    assert_eq!(block.log_level, Some(Level::Error));
    assert_eq!(written(&log), "---\none");
}

#[test]
fn an_entry_that_is_filtered_is_not_looked_at() {
    let mut log = YmLog::new();
    log.set_output(Vec::new());
    assert_eq!(log.log(&mut Block::new(), None), Ok(()));
    assert_eq!(written(&log), "");
}

#[test]
fn a_structured_message_with_children_is_refused() {
    let mut block = Block::new();
    block.set_key_value(text("k"), text("v"));
    block.set_children(vec![]);
    assert_eq!(logger().log(&mut block, None), Err(LogError::InvalidShape));
}

#[test]
fn reset_starts_a_new_document_at_any_depth() {
    let mut log = logger();
    log.log(&mut entry("one"), None).unwrap();
    log.log(&mut entry("two"), Some("+")).unwrap();
    log.log(&mut entry("three"), Some("+")).unwrap();
    let before = written(&log).len();
    log.log(&mut entry("Root Message"), Some("r")).unwrap();
    assert_eq!(&written(&log)[before..], "---\nRoot Message");
    assert_eq!(log.frames(), vec![Message]);
    log.log(&mut entry("next"), Some("r_r")).unwrap();
    assert_eq!(log.frames(), vec![Reset]);
}

#[test]
fn dedent_more_often_than_the_depth() {
    let mut log = logger();
    log.log(&mut entry("one"), None).unwrap();
    log.log(&mut entry("two"), Some("+")).unwrap();
    assert_eq!(log.log(&mut entry("three"), Some("-----_-----")), Ok(()));
    assert_eq!(log.frames(), vec![]);
    assert_eq!(written(&log), "---\none:\n  - two---\nthree");
}

#[test]
fn text_is_written_as_utf8() {
    let mut log = logger();
    log.log(&mut entry("grüße €"), None).unwrap();
    assert_eq!(log.output().unwrap().as_slice(), "---\ngrüße €".as_bytes());
}

#[test]
fn drain_takes_what_was_written() {
    let mut log = logger();
    log.log(&mut entry("one"), None).unwrap();
    assert_eq!(log.drain(), b"---\none".to_vec());
    assert_eq!(written(&log), "");
    log.log(&mut entry("two"), None).unwrap();
    assert_eq!(log.drain(), b"\n---\ntwo".to_vec());
    assert_eq!(log.drain(), Vec::<u8>::new());

    let mut silent = YmLog::new();
    assert_eq!(silent.drain(), Vec::<u8>::new());
    assert!(silent.output().is_none());
}

#[test]
fn errors_describe_themselves() {
    assert_eq!(LogError::MissingMessage.describe(), "Logs must always have a base message set");
    assert_eq!(
        LogError::UnknownActionCharacter('x').describe(),
        "invalid character x found in logging statement"
    );
    assert_eq!(LogError::NoOutput.describe(), "The logger wasn't initialized");
    for e in [
        LogError::InvalidShape,
        LogError::UnsplittableMessage,
        LogError::RenderInvariantViolation,
    ] {
        assert!(!e.describe().is_empty());
    }
}
