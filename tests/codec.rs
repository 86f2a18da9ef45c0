use task_tracker::codec::{escape, unescape, Todo};
use task_tracker::decimal::parse_id;

fn todo(id: u64, done: bool, text: &str) -> Todo {
    Todo { id, done, text: text.to_string() }
}

fn same_todo(a: &Todo, b: &Todo) -> bool {
    a.id == b.id && a.done == b.done && a.text == b.text
}

#[test]
fn escape_writes_the_four_special_characters_as_pairs() {
    assert_eq!(escape("a|b\\c\nd\re"), "a\\pb\\\\c\\nd\\re");
    assert_eq!(escape("plain text"), "plain text");
    assert_eq!(escape(""), "");
}

#[test]
fn unescape_reverses_the_pairs() {
    assert_eq!(unescape("a\\pb\\\\c\\nd\\re"), "a|b\\c\nd\re");
}

#[test]
fn unescape_keeps_unknown_and_trailing_backslashes() {
    assert_eq!(unescape("\\x"), "\\x");
    assert_eq!(unescape("end\\"), "end\\");
    assert_eq!(unescape("a\\tb"), "a\\tb");
}

#[test]
fn serialize_writes_id_flag_and_escaped_text() {
    assert_eq!(todo(5, true, "a|b").serialize(), "5|1|a\\pb");
    assert_eq!(todo(12, false, "Buy milk").serialize(), "12|0|Buy milk");
    assert_eq!(todo(0, false, "").serialize(), "0|0|");
}

#[test]
fn deserialize_reads_a_record() {
    let t = Todo::deserialize("7|1|walk \\pdog\\p").unwrap();
    assert!(same_todo(&t, &todo(7, true, "walk |dog|")));
    let e = Todo::deserialize("3|0|").unwrap();
    assert!(same_todo(&e, &todo(3, false, "")));
}

#[test]
fn deserialize_keeps_separators_after_the_second_in_the_text() {
    let t = Todo::deserialize("4|0|a|b").unwrap();
    assert!(same_todo(&t, &todo(4, false, "a|b")));
}

#[test]
fn deserialize_accepts_a_leading_plus_on_the_id() {
    let t = Todo::deserialize("+9|0|x").unwrap();
    assert_eq!(t.id, 9);
}

#[test]
fn deserialize_rejects_malformed_records() {
    assert!(Todo::deserialize("").is_none());
    assert!(Todo::deserialize("abc").is_none());
    assert!(Todo::deserialize("1|0").is_none());
    assert!(Todo::deserialize("1").is_none());
    assert!(Todo::deserialize("x|0|text").is_none());
    assert!(Todo::deserialize("-1|0|text").is_none());
    assert!(Todo::deserialize("|0|text").is_none());
    assert!(Todo::deserialize("1|2|text").is_none());
    assert!(Todo::deserialize("1|10|text").is_none());
    assert!(Todo::deserialize("1||text").is_none());
    assert!(Todo::deserialize("18446744073709551616|0|x").is_none());
}

#[test]
fn round_trip_keeps_every_special_character() {
    let texts = ["", "\\", "|", "\n", "\r", "a|b\\c", "\\p\\n", "x\r\ny|z\\", "ünï|cødé"];
    for (i, text) in texts.iter().enumerate() {
        for done in [false, true] {
            let t = todo(i as u64 * 1000 + 1, done, text);
            let back = Todo::deserialize(&t.serialize()).unwrap();
            assert!(same_todo(&back, &t));
        }
    }
    let big = todo(u64::MAX, true, "|\\|");
    assert!(same_todo(&Todo::deserialize(&big.serialize()).unwrap(), &big));
}

#[test]
fn parse_id_reads_unsigned_numbers() {
    assert_eq!(parse_id("42"), Some(42));
    assert_eq!(parse_id("0"), Some(0));
    assert_eq!(parse_id("007"), Some(7));
    assert_eq!(parse_id("+3"), Some(3));
    assert_eq!(parse_id("18446744073709551615"), Some(u64::MAX));
}

#[test]
fn parse_id_rejects_other_text() {
    assert_eq!(parse_id(""), None);
    assert_eq!(parse_id("+"), None);
    assert_eq!(parse_id("-1"), None);
    assert_eq!(parse_id("1a"), None);
    assert_eq!(parse_id(" 1"), None);
    assert_eq!(parse_id("++1"), None);
    assert_eq!(parse_id("18446744073709551616"), None);
    assert_eq!(parse_id("99999999999999999999x"), None);
}
