use task_tracker::codec::Todo;
use task_tracker::store::{parse_todos, render_todos};

fn todo(id: u64, done: bool, text: &str) -> Todo {
    Todo { id, done, text: text.to_string() }
}

fn same_todos(a: &[Todo], b: &[Todo]) -> bool {
    a.len() == b.len()
        && a.iter().zip(b.iter()).all(|(x, y)| x.id == y.id && x.done == y.done && x.text == y.text)
}

#[test]
fn render_writes_one_record_per_line() {
    let ts = vec![todo(1, false, "Buy milk"), todo(2, true, "Walk dog")];
    assert_eq!(render_todos(&ts), "1|0|Buy milk\n2|1|Walk dog\n");
    assert_eq!(render_todos(&Vec::new()), "");
}

#[test]
fn save_then_load_gives_the_same_tasks_in_order() {
    let ts = vec![
        todo(3, false, "c"),
        todo(1, true, "a|b\\c"),
        todo(2, false, "line\nbreak\r"),
        todo(10, false, ""),
    ];
    let (back, bad) = parse_todos(&render_todos(&ts));
    assert!(same_todos(&back, &ts));
    assert!(bad.is_empty());
    let (none, bad2) = parse_todos(&render_todos(&Vec::new()));
    assert!(none.is_empty() && bad2.is_empty());
}

#[test]
fn load_skips_blank_lines_and_reports_bad_ones() {
    let text = "1|0|one\n\n   \nnot a record\n2|1|two\r\n\t\n3|x|bad\n4|0|four";
    let (ts, bad) = parse_todos(text);
    assert!(same_todos(&ts, &[todo(1, false, "one"), todo(2, true, "two"), todo(4, false, "four")]));
    assert_eq!(bad, vec!["not a record".to_string(), "3|x|bad".to_string()]);
}

#[test]
fn load_of_an_empty_text_has_no_tasks() {
    let (ts, bad) = parse_todos("");
    assert!(ts.is_empty() && bad.is_empty());
}

#[test]
fn pipe_and_backslash_survive_a_store_round_trip() {
    let ts = vec![todo(1, false, "a|b\\c")];
    let (back, _) = parse_todos(&render_todos(&ts));
    assert_eq!(back[0].text, "a|b\\c");
}
