//! The depth tracker: what is written for an entry, and where the stack
//! goes.

use ymlog::error::LogError;
use ymlog::message::Block;
use ymlog::tracker::{pad_value, splice, unescape, LastBlockType, Tracker};
use ymlog::value::YmlValue;

use ymlog::tracker::LastBlockType::{BlockIndent, BlockMessage, Indent, KeyValue, Message, Reset};

fn text(s: &str) -> YmlValue {
    YmlValue::String(s.to_string())
}

fn entry(message: &str) -> Block {
    let mut block = Block::new();
    block.set_message(text(message));
    block
}

fn emit(tracker: &mut Tracker, message: &str) -> String {
    tracker.serialize(&mut entry(message)).unwrap()
}

#[test]
fn a_new_tracker_has_no_frame() {
    assert_eq!(Tracker::new().frames(), vec![]);
    assert_eq!(Tracker::default().frames(), vec![]);
    assert_eq!(LastBlockType::default(), LastBlockType::Fresh);
}

#[test]
fn first_entry_starts_a_document_without_a_separator() {
    let mut t = Tracker::new();
    assert_eq!(emit(&mut t, "Root Message"), "---\nRoot Message");
    assert_eq!(t.frames(), vec![Message]);
}

#[test]
fn second_entry_at_the_root_starts_another_document() {
    let mut t = Tracker::new();
    emit(&mut t, "one");
    assert_eq!(emit(&mut t, "two"), "\n---\ntwo");
    assert_eq!(t.frames(), vec![Message]);
}

#[test]
fn indent_turns_the_entry_before_into_a_key() {
    let mut t = Tracker::new();
    emit(&mut t, "one");
    t.indent();
    assert_eq!(t.frames(), vec![Message, Indent]);
    assert_eq!(emit(&mut t, "two"), ":\n  - two");
    assert_eq!(t.frames(), vec![Message, Message]);
}

#[test]
fn entries_at_one_depth_are_items_of_one_sequence() {
    let mut t = Tracker::new();
    emit(&mut t, "one");
    t.indent();
    emit(&mut t, "two");
    assert_eq!(emit(&mut t, "three"), "\n  - three");
    assert_eq!(emit(&mut t, "four"), "\n  - four");
    assert_eq!(t.frames(), vec![Message, Message]);
}

#[test]
fn a_block_is_written_as_a_literal_scalar() {
    let mut t = Tracker::new();
    emit(&mut t, "one");
    t.indent();
    assert_eq!(emit(&mut t, "first\nsecond"), ":\n  - |-\n    first\n    second");
    assert_eq!(t.frames(), vec![Message, BlockMessage]);
}

#[test]
fn an_indent_after_a_block_opens_an_item_with_the_empty_key() {
    let mut t = Tracker::new();
    emit(&mut t, "one");
    t.indent();
    emit(&mut t, "first\nsecond");
    t.indent();
    assert_eq!(t.frames(), vec![Message, BlockMessage, BlockIndent]);
    assert_eq!(emit(&mut t, "a\nb"), "\n  - \"\" :\n    - |-\n      a\n      b");
    assert_eq!(t.frames(), vec![Message, BlockMessage, BlockMessage]);
}

#[test]
fn an_indent_after_a_block_keeps_the_mark_of_the_block() {
    let mut t = Tracker::new();
    emit(&mut t, "one");
    t.indent();
    emit(&mut t, "first\nsecond");
    t.indent();
    assert_eq!(emit(&mut t, "plain"), "\n  - \"\" :\n    - plain");
    assert_eq!(t.frames(), vec![Message, BlockMessage, BlockMessage]);
}

#[test]
fn an_entry_after_a_block_is_a_plain_item() {
    let mut t = Tracker::new();
    emit(&mut t, "one");
    t.indent();
    emit(&mut t, "first\nsecond");
    assert_eq!(emit(&mut t, "plain"), "\n  - plain");
    assert_eq!(t.frames(), vec![Message, BlockMessage]);
}

#[test]
fn a_block_holds_the_lines_of_the_message() {
    let mut t = Tracker::new();
    emit(&mut t, "one");
    t.indent();
    assert_eq!(emit(&mut t, "say \"hi\"\n\tnow"), ":\n  - |-\n    say \"hi\"\n    \tnow");
    // A backslash and an `n` in the message are no line break.
    assert_eq!(emit(&mut t, "a\\nb\nc:\\d"), "\n  - |-\n    a\\nb\n    c:\\d");
    assert_eq!(emit(&mut t, "bell\u{7}\nend\u{7f}"), "\n  - |-\n    bell\u{7}\n    end\u{7f}");
    assert_eq!(emit(&mut t, "é€\n😀"), "\n  - |-\n    é€\n    😀");
}

#[test]
fn a_block_as_the_first_entry_is_rendered_as_it_is() {
    let mut t = Tracker::new();
    assert_eq!(emit(&mut t, "a\nb"), "---\n\"a\\nb\"");
    assert_eq!(t.frames(), vec![BlockMessage]);
}

#[test]
fn a_block_at_depth_one_follows_its_own_header() {
    let mut t = Tracker::new();
    emit(&mut t, "one");
    assert_eq!(emit(&mut t, "a\nb"), "\n|+ a\nb");
    assert_eq!(t.frames(), vec![BlockMessage]);
}

#[test]
fn deep_entries_are_indented_by_two_spaces_a_level() {
    let mut t = Tracker::new();
    emit(&mut t, "root");
    for depth in 1..6 {
        t.indent();
        let expected = format!(":\n{}- level {}", "  ".repeat(depth), depth);
        assert_eq!(emit(&mut t, &format!("level {}", depth)), expected);
    }
    assert_eq!(t.frames(), vec![Message; 6]);
}

#[test]
fn indent_is_honoured_once() {
    let mut t = Tracker::new();
    t.indent();
    assert_eq!(t.frames(), vec![]);
    emit(&mut t, "one");
    t.indent();
    t.indent();
    t.indent();
    assert_eq!(t.frames(), vec![Message, Indent]);
    t.reset();
    t.indent();
    assert_eq!(t.frames(), vec![Reset]);
}

#[test]
fn dedent_floors_at_no_frame() {
    let mut t = Tracker::new();
    t.dedent();
    assert_eq!(t.frames(), vec![]);
    emit(&mut t, "one");
    t.indent();
    emit(&mut t, "two");
    for _ in 0..5 {
        t.dedent();
    }
    assert_eq!(t.frames(), vec![]);
    assert_eq!(emit(&mut t, "again"), "---\nagain");
}

#[test]
fn dedent_goes_back_to_the_sequence_above() {
    let mut t = Tracker::new();
    emit(&mut t, "0");
    t.indent();
    emit(&mut t, "1");
    t.indent();
    emit(&mut t, "2");
    t.dedent();
    assert_eq!(emit(&mut t, "1 again"), "\n  - 1 again");
}

#[test]
fn reset_then_emit_starts_a_document_as_the_first_entry_does() {
    let mut fresh = Tracker::new();
    let first = emit(&mut fresh, "Root Message");

    let mut t = Tracker::new();
    emit(&mut t, "0");
    t.indent();
    emit(&mut t, "1");
    t.indent();
    emit(&mut t, "2\n3");
    t.reset();
    assert_eq!(t.frames(), vec![Reset]);
    assert_eq!(emit(&mut t, "Root Message"), first);
    assert_eq!(t.frames(), fresh.frames());
}

#[test]
fn dedent_after_indent_changes_nothing() {
    let mut t = Tracker::new();
    emit(&mut t, "0");
    t.indent();
    emit(&mut t, "1");
    let before = t.frames();
    t.indent();
    t.dedent();
    assert_eq!(t.frames(), before);
    assert_eq!(emit(&mut t, "next"), "\n  - next");

    let mut blank = Tracker::new();
    blank.reset();
    blank.indent();
    blank.dedent();
    assert_eq!(emit(&mut blank, "first"), "---\nfirst");
}

#[test]
fn an_entry_without_a_message_is_refused() {
    let mut t = Tracker::new();
    emit(&mut t, "one");
    t.indent();
    let before = t.frames();
    assert_eq!(t.serialize(&mut Block::new()), Err(LogError::MissingMessage));
    assert_eq!(t.frames(), before);
}

#[test]
fn a_mapping_with_children_is_refused() {
    let mut block = Block::new();
    block.set_message(YmlValue::Mapping(vec![(text("k"), text("v"))]));
    block.set_children(vec![entry("child")]);
    assert_eq!(Tracker::new().serialize(&mut block), Err(LogError::InvalidShape));
    block.set_message(YmlValue::Mapping(vec![]));
    assert_eq!(Tracker::new().serialize(&mut block), Err(LogError::InvalidShape));
}

#[test]
fn a_key_with_its_value_and_children_is_refused() {
    let mut block = Block::new();
    block.set_key_value(text("k"), text("v"));
    block.set_children(vec![]);
    assert_eq!(Tracker::new().serialize(&mut block), Err(LogError::InvalidShape));
}

#[test]
fn the_first_thing_wrong_is_reported() {
    let mut bad_shape = Block::new();
    bad_shape.set_key_value(text("k"), text("v"));
    bad_shape.set_children(vec![]);

    let mut parent = entry("parent");
    parent.set_children(vec![entry("fine"), bad_shape, Block::new()]);
    assert_eq!(Tracker::new().serialize(&mut parent), Err(LogError::InvalidShape));

    let mut inner = entry("inner");
    inner.set_children(vec![Block::new()]);
    let mut outer = entry("outer");
    outer.set_children(vec![entry("fine"), inner]);
    assert_eq!(Tracker::new().serialize(&mut outer), Err(LogError::MissingMessage));

    let mut unset = Block::new();
    unset.set_children(vec![entry("fine")]);
    assert_eq!(Tracker::new().serialize(&mut unset), Err(LogError::MissingMessage));
}

#[test]
fn children_stand_in_a_sequence_under_the_message() {
    let mut block = entry("parent");
    block.set_children(vec![entry("first"), entry("second")]);
    let mut t = Tracker::new();
    assert_eq!(t.serialize(&mut block), Ok("---\nparent:\n  - first\n  - second".to_string()));
    assert_eq!(t.frames(), vec![Message]);
    t.indent();
    assert_eq!(
        t.serialize(&mut block),
        Ok(":\n  - parent:\n      - first\n      - second".to_string())
    );
}

#[test]
fn children_of_children() {
    let mut middle = entry("middle");
    middle.set_children(vec![entry("leaf")]);
    let mut top = entry("top");
    top.set_children(vec![middle, entry("last")]);
    assert_eq!(
        Tracker::new().serialize(&mut top),
        Ok("---\ntop:\n  - middle:\n      - leaf\n  - last".to_string())
    );
}

#[test]
fn a_key_with_its_value_is_a_mapping_of_one_entry() {
    let mut block = Block::new();
    block.set_key_value(text("key"), text("value"));
    let mut t = Tracker::new();
    assert_eq!(t.serialize(&mut block), Ok("---\nkey: value".to_string()));
    t.indent();
    assert_eq!(t.serialize(&mut block), Ok(":\n  - key: value".to_string()));
    assert_eq!(t.frames(), vec![Message, Message]);
}

#[test]
fn structured_messages_are_rendered_in_place() {
    let mut block = Block::new();
    block.set_message(YmlValue::Sequence(vec![YmlValue::Number(1), YmlValue::Number(2)]));
    let mut t = Tracker::new();
    emit(&mut t, "one");
    t.indent();
    assert_eq!(t.serialize(&mut block), Ok(":\n  - - 1\n    - 2".to_string()));
    block.set_message(YmlValue::Mapping(vec![
        (text("a"), YmlValue::Number(1)),
        (text("b"), YmlValue::Bool(false)),
    ]));
    assert_eq!(t.serialize(&mut block), Ok("\n  - a: 1\n    b: false".to_string()));
}

#[test]
fn serialize_leaves_the_entry_as_it_was() {
    let mut block = entry("parent");
    block.set_children(vec![entry("child")]);
    Tracker::new().serialize(&mut block).unwrap();
    assert!(matches!(&block.message, ymlog::message::MessageType::Value(v) if *v == text("parent")));
    assert_eq!(block.children.as_ref().unwrap().len(), 1);
}

#[test]
fn build_value_of_a_plain_message() {
    let (value, trail) = Tracker::build_value(&entry("plain")).unwrap();
    assert_eq!(value, text("plain"));
    assert_eq!(trail, vec![Message]);
}

#[test]
fn build_value_of_a_key_with_its_value() {
    let mut block = Block::new();
    block.set_key_value(YmlValue::Number(1), YmlValue::Null);
    let (value, trail) = Tracker::build_value(&block).unwrap();
    assert_eq!(value, YmlValue::Mapping(vec![(YmlValue::Number(1), YmlValue::Null)]));
    assert_eq!(trail, vec![KeyValue]);
}

#[test]
fn build_value_with_children_ends_where_the_last_child_ends() {
    let mut last = Block::new();
    last.set_key_value(text("k"), text("v"));
    let mut block = entry("parent");
    block.set_children(vec![entry("first"), last]);
    let (value, trail) = Tracker::build_value(&block).unwrap();
    assert_eq!(
        value,
        YmlValue::Mapping(vec![(
            text("parent"),
            YmlValue::Sequence(vec![
                text("first"),
                YmlValue::Mapping(vec![(text("k"), text("v"))]),
            ]),
        )])
    );
    assert_eq!(trail, vec![KeyValue]);

    let mut childless = entry("parent");
    childless.set_children(vec![]);
    let (value, trail) = Tracker::build_value(&childless).unwrap();
    assert_eq!(value, YmlValue::Mapping(vec![(text("parent"), YmlValue::Sequence(vec![]))]));
    assert_eq!(trail, vec![]);
}

#[test]
fn build_value_errors() {
    assert_eq!(Tracker::build_value(&Block::new()), Err(LogError::MissingMessage));
    let mut block = Block::new();
    block.set_message(YmlValue::Mapping(vec![]));
    block.set_children(vec![]);
    assert_eq!(Tracker::build_value(&block), Err(LogError::InvalidShape));
}

#[test]
fn is_block_tells_texts_of_several_lines() {
    assert!(Tracker::is_block(&text("a\nb")));
    assert!(!Tracker::is_block(&text("ab")));
    assert!(!Tracker::is_block(&YmlValue::Null));
}

#[test]
fn pad_value_wraps_once_a_frame() {
    assert_eq!(
        pad_value(text("v"), 2),
        YmlValue::Mapping(vec![(text("__Cut Here__"), YmlValue::Sequence(vec![text("v")]))])
    );
    assert_eq!(
        pad_value(YmlValue::Number(7), 4),
        YmlValue::Mapping(vec![(
            text(""),
            YmlValue::Mapping(vec![(
                text(""),
                YmlValue::Mapping(vec![(
                    text("__Cut Here__"),
                    YmlValue::Sequence(vec![YmlValue::Number(7)]),
                )]),
            )]),
        )])
    );
}

#[test]
fn splice_keeps_what_follows_the_cut_line() {
    assert_eq!(
        splice("---\n__Cut Here__:\n  - Add an indented record\n", 2, false),
        Ok("  - Add an indented record\n".to_string())
    );
    assert_eq!(
        splice("---\n\"\":\n  __Cut Here__:\n    - x\n", 3, false),
        Ok("    - x\n".to_string())
    );
    assert_eq!(splice("__Cut Here__:\n", 2, false), Ok(String::new()));
}

#[test]
fn splice_cuts_at_the_first_cut_line() {
    assert_eq!(
        splice("__Cut Here__:\n  - __Cut Here__:\n      - x\n", 2, false),
        Ok("  - __Cut Here__:\n      - x\n".to_string())
    );
}

#[test]
fn splice_reshapes_a_block() {
    assert_eq!(
        splice("---\n__Cut Here__:\n  - \"one\\ntwo\\nthree\"\n", 2, true),
        Ok("  - |-\n    one\n    two\n    three\n".to_string())
    );
    assert_eq!(
        splice("---\n\"\":\n  __Cut Here__:\n    - \"a\\nb\"\n", 3, true),
        Ok("    - |-\n      a\n      b\n".to_string())
    );
}

#[test]
fn splice_fails_without_the_cut_line() {
    assert_eq!(splice("", 2, false), Err(LogError::RenderInvariantViolation));
    assert_eq!(splice("---\n- x\n", 2, true), Err(LogError::RenderInvariantViolation));
    assert_eq!(splice("__Cut Here__: x\n", 2, false), Err(LogError::RenderInvariantViolation));
    assert_eq!(splice("\"__Cut Here__\":\n", 2, false), Err(LogError::RenderInvariantViolation));
}

#[test]
fn splice_fails_on_a_block_that_is_too_short() {
    assert_eq!(splice("__Cut Here__:\n  - \"", 2, true), Err(LogError::RenderInvariantViolation));
    assert_eq!(splice("__Cut Here__:\n  - \"\"", 2, true), Err(LogError::RenderInvariantViolation));
    assert_eq!(splice("__Cut Here__:\n  - \"\"\n", 2, true), Ok("  - |-\n    \n".to_string()));
    assert_eq!(splice("__Cut Here__:\nabc", usize::MAX, true), Err(LogError::RenderInvariantViolation));
}

#[test]
fn indent_string_places_a_value_at_the_depth_of_the_stack() {
    let mut t = Tracker::new();
    emit(&mut t, "0");
    assert_eq!(t.indent_string(text("x")), Ok("---\nx\n".to_string()));
    assert_eq!(t.frames(), vec![Message]);
    assert_eq!(t.indent_string(text("x\ny")), Ok("|+ x\ny".to_string()));
    assert_eq!(t.frames(), vec![BlockMessage]);
    t.indent();
    assert_eq!(t.indent_string(text("x")), Ok("  - x\n".to_string()));
    assert_eq!(t.frames(), vec![BlockMessage, BlockIndent]);
    assert_eq!(t.indent_string(text("x\ny")), Ok("  - |-\n    x\n    y\n".to_string()));
    assert_eq!(t.frames(), vec![BlockMessage, BlockMessage]);
}

#[test]
fn a_mapping_with_equal_keys_is_written_as_the_renderer_holds_it() {
    let mut block = Block::new();
    block.set_message(YmlValue::Mapping(vec![
        (text("k"), YmlValue::Number(1)),
        (text("k"), YmlValue::Number(2)),
    ]));
    let mut t = Tracker::new();
    assert_eq!(t.serialize(&mut block), Ok("---\nk: 2".to_string()));
    t.indent();
    assert_eq!(t.serialize(&mut block), Ok(":\n  - k: 2".to_string()));
}

fn plain(s: &str) -> String {
    unescape(&s.chars().collect()).into_iter().collect()
}

#[test]
fn unescape_undoes_the_escapes_of_a_quoted_text() {
    assert_eq!(plain(""), "");
    assert_eq!(plain("no escapes"), "no escapes");
    assert_eq!(plain("a\\nb"), "a\nb");
    assert_eq!(plain("\\\"q\\\""), "\"q\"");
    assert_eq!(plain("\\t\\r\\b\\f"), "\t\r\u{8}\u{c}");
    assert_eq!(plain("\\u0000\\u001b\\u007f\\u000B"), "\u{0}\u{1b}\u{7f}\u{b}");
}

#[test]
fn unescape_scans_from_the_left() {
    // An escaped backslash, then an `n`: a backslash and an `n`.
    assert_eq!(plain("a\\\\nb"), "a\\nb");
    assert_eq!(plain("\\\\\\n"), "\\\n");
    assert_eq!(plain("\\\\u0041"), "\\u0041");
}

#[test]
fn unescape_leaves_what_is_no_escape() {
    assert_eq!(plain("\\"), "\\");
    assert_eq!(plain("\\x"), "\\x");
    assert_eq!(plain("\\u00"), "\\u00");
    assert_eq!(plain("\\u00zz"), "\\u00zz");
    assert_eq!(plain("\\u1234"), "\\u1234");
}

#[test]
fn splice_undoes_the_escapes_of_a_block() {
    assert_eq!(
        splice("__Cut Here__:\n  - \"a\\\\nb\\n\\\"c\\\"\\td\"\n", 2, true),
        Ok("  - |-\n    a\\nb\n    \"c\"\td\n".to_string())
    );
}
