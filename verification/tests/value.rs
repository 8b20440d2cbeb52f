//! Values and their rendering.

use ymlog::value::YmlValue;
use ymlog::yaml::render;

fn text(s: &str) -> YmlValue {
    YmlValue::String(s.to_string())
}

#[test]
fn render_null() {
    assert_eq!(render(&YmlValue::Null), "---\n~\n");
}

#[test]
fn render_bool() {
    assert_eq!(render(&YmlValue::Bool(true)), "---\ntrue\n");
    assert_eq!(render(&YmlValue::Bool(false)), "---\nfalse\n");
}

#[test]
fn render_number() {
    assert_eq!(render(&YmlValue::Number(42)), "---\n42\n");
    assert_eq!(render(&YmlValue::Number(-7)), "---\n-7\n");
    assert_eq!(
        render(&YmlValue::Number(i64::MIN)),
        "---\n-9223372036854775808\n"
    );
}

#[test]
fn render_unsigned() {
    assert_eq!(render(&YmlValue::Unsigned(42)), "---\n42\n");
    assert_eq!(
        render(&YmlValue::Unsigned(u64::MAX)),
        "---\n18446744073709551615\n"
    );
}

#[test]
fn render_string() {
    assert_eq!(render(&text("Root Message")), "---\nRoot Message\n");
}

#[test]
fn render_string_with_line_break_is_quoted() {
    assert_eq!(render(&text("a\nb")), "---\n\"a\\nb\"\n");
}

#[test]
fn render_sequence() {
    let value = YmlValue::Sequence(vec![YmlValue::Number(1), text("two"), YmlValue::Null]);
    assert_eq!(render(&value), "---\n- 1\n- two\n- ~\n");
}

#[test]
fn render_mapping_keeps_the_order_of_its_entries() {
    let value = YmlValue::Mapping(vec![
        (text("zebra"), YmlValue::Number(1)),
        (text("apple"), YmlValue::Number(2)),
        (YmlValue::Number(3), YmlValue::Bool(true)),
    ]);
    assert_eq!(render(&value), "---\nzebra: 1\napple: 2\n3: true\n");
}

#[test]
fn render_nested_values() {
    let value = YmlValue::Mapping(vec![(
        text("outer"),
        YmlValue::Sequence(vec![YmlValue::Mapping(vec![(text("inner"), text("leaf"))])]),
    )]);
    assert_eq!(render(&value), "---\nouter:\n  - inner: leaf\n");
}

#[test]
fn mappings_are_told_from_other_values() {
    assert!(YmlValue::Mapping(vec![]).is_mapping());
    assert!(!YmlValue::Sequence(vec![]).is_mapping());
    assert!(!YmlValue::Null.is_mapping());
    assert!(!text("a: b").is_mapping());
}

#[test]
fn blocks_are_texts_with_a_line_break() {
    assert!(text("a\nb").is_block());
    assert!(text("\n").is_block());
    assert!(!text("a b").is_block());
    assert!(!text("a\\nb").is_block());
    assert!(!YmlValue::Sequence(vec![text("a\nb")]).is_block());
}

#[test]
fn duplicate_gives_an_equal_value() {
    let value = YmlValue::Mapping(vec![
        (text("list"), YmlValue::Sequence(vec![YmlValue::Number(1), YmlValue::Bool(true)])),
        (YmlValue::Null, text("x\ny")),
    ]);
    assert_eq!(value.duplicate(), value);
}

#[test]
fn a_mapping_keeps_one_entry_for_equal_integers() {
    let value = YmlValue::Mapping(vec![
        (YmlValue::Number(7), YmlValue::Bool(true)),
        (text("between"), YmlValue::Null),
        (YmlValue::Unsigned(7), YmlValue::Bool(false)),
    ]);
    assert_eq!(render(&value), "---\n7: false\nbetween: ~\n");
}

#[test]
fn a_mapping_keeps_the_last_value_of_a_key_in_the_place_of_the_first() {
    let value = YmlValue::Mapping(vec![
        (text("same"), YmlValue::Number(1)),
        (text("other"), YmlValue::Number(2)),
        (text("same"), YmlValue::Number(3)),
    ]);
    assert_eq!(render(&value), "---\nsame: 3\nother: 2\n");
}

#[test]
fn render_structured_keys() {
    let value = YmlValue::Mapping(vec![
        (YmlValue::Sequence(vec![YmlValue::Number(1)]), text("held")),
        (text("plain"), YmlValue::Number(2)),
    ]);
    assert_eq!(render(&value), "---\n? - 1\n: held\nplain: 2\n");
}
