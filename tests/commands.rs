use task_tracker::cli::{confirms_clear, list_lines, parse_command, Command};
use task_tracker::codec::Todo;
use task_tracker::store::{parse_todos, render_todos};
use task_tracker::tasks::{add_task, edit_task, mark_done, next_id, remove_task, CmdError};

fn todo(id: u64, done: bool, text: &str) -> Todo {
    Todo { id, done, text: text.to_string() }
}

fn args(words: &[&str]) -> Vec<String> {
    words.iter().map(|w| w.to_string()).collect()
}

fn sample() -> Vec<Todo> {
    vec![todo(1, false, "Buy milk"), todo(2, true, "Walk dog")]
}

#[test]
fn next_id_is_one_above_the_largest() {
    assert_eq!(next_id(&[]), 1);
    assert_eq!(next_id(&[todo(3, false, "a"), todo(7, true, "b"), todo(5, false, "c")]), 8);
}

#[test]
fn add_to_an_empty_store_gives_id_one() {
    let cmd = parse_command(&args(&["add", "Buy", "milk"])).unwrap();
    let text = match cmd {
        Command::Add(t) => t,
        _ => panic!("expected add"),
    };
    assert_eq!(text, "Buy milk");
    let mut ts = Vec::new();
    assert_eq!(add_task(&mut ts, text), Ok(1));
    assert_eq!(ts.len(), 1);
    assert_eq!(ts[0].id, 1);
    assert!(!ts[0].done);
    assert_eq!(ts[0].text, "Buy milk");
    let (back, _) = parse_todos(&render_todos(&ts));
    assert_eq!(back.len(), 1);
    assert_eq!(back[0].text, "Buy milk");
}

#[test]
fn add_after_removal_takes_one_above_the_largest_left() {
    let mut ts = sample();
    assert_eq!(add_task(&mut ts, "third".to_string()), Ok(3));
    assert_eq!(remove_task(&mut ts, 3), Ok(()));
    assert_eq!(remove_task(&mut ts, 1), Ok(()));
    assert_eq!(add_task(&mut ts, "again".to_string()), Ok(3));
    let ids: Vec<u64> = ts.iter().map(|t| t.id).collect();
    assert_eq!(ids, vec![2, 3]);
}

#[test]
fn add_fails_when_no_id_is_left() {
    let mut ts = vec![todo(u64::MAX, false, "last")];
    assert_eq!(add_task(&mut ts, "more".to_string()), Err(CmdError::IdsExhausted));
    assert_eq!(ts.len(), 1);
}

#[test]
fn list_hides_finished_tasks_by_default() {
    let ts = sample();
    assert_eq!(
        list_lines(&ts, false),
        vec!["ID  Done  Task", "-------------------------------", "1    no    Buy milk"]
    );
    assert_eq!(
        list_lines(&ts, true),
        vec![
            "ID  Done  Task",
            "-------------------------------",
            "1    no    Buy milk",
            "2    yes   Walk dog"
        ]
    );
}

#[test]
fn list_of_an_empty_store_says_so() {
    assert_eq!(list_lines(&Vec::new(), false), vec!["No tasks."]);
    assert_eq!(list_lines(&Vec::new(), true), vec!["No tasks."]);
}

#[test]
fn list_with_only_finished_tasks_shows_just_the_header() {
    let ts = vec![todo(4, true, "x")];
    assert_eq!(list_lines(&ts, false), vec!["ID  Done  Task", "-------------------------------"]);
}

#[test]
fn list_pads_ids_to_three_characters() {
    let ts = vec![todo(42, false, "a"), todo(1234, false, "b")];
    assert_eq!(
        list_lines(&ts, false)[2..].to_vec(),
        vec!["42   no    a", "1234  no    b"]
    );
}

#[test]
fn done_marks_the_task_and_missing_id_changes_nothing() {
    let mut ts = sample();
    ts[1].done = false;
    assert_eq!(mark_done(&mut ts, 2), Ok(()));
    assert!(ts[1].done);
    let before = render_todos(&ts);
    assert_eq!(mark_done(&mut ts, 5), Err(CmdError::NotFound));
    assert_eq!(render_todos(&ts), before);
}

#[test]
fn done_twice_succeeds_both_times() {
    let mut ts = sample();
    assert_eq!(mark_done(&mut ts, 1), Ok(()));
    let once = render_todos(&ts);
    assert_eq!(mark_done(&mut ts, 1), Ok(()));
    assert!(ts[0].done);
    assert_eq!(render_todos(&ts), once);
}

#[test]
fn edit_replaces_the_text() {
    let mut ts = vec![todo(3, false, "old")];
    let cmd = parse_command(&args(&["edit", "3", "new", "text", "here"])).unwrap();
    let (id, text) = match cmd {
        Command::Edit(id, text) => (id, text),
        _ => panic!("expected edit"),
    };
    assert_eq!(edit_task(&mut ts, id, text), Ok(()));
    assert_eq!(ts[0].text, "new text here");
    assert_eq!(ts[0].id, 3);
    assert!(!ts[0].done);
}

#[test]
fn missing_ids_leave_the_store_unchanged() {
    let mut ts = sample();
    let before = render_todos(&ts);
    assert_eq!(remove_task(&mut ts, 9), Err(CmdError::NotFound));
    assert_eq!(edit_task(&mut ts, 9, "x".to_string()), Err(CmdError::NotFound));
    assert_eq!(mark_done(&mut ts, 9), Err(CmdError::NotFound));
    assert_eq!(render_todos(&ts), before);
}

#[test]
fn remove_keeps_the_order_of_the_others() {
    let mut ts = vec![todo(1, false, "a"), todo(2, false, "b"), todo(3, true, "c")];
    assert_eq!(remove_task(&mut ts, 2), Ok(()));
    let ids: Vec<u64> = ts.iter().map(|t| t.id).collect();
    assert_eq!(ids, vec![1, 3]);
}

#[test]
fn ids_stay_unique_over_adds_and_removals() {
    let mut ts = Vec::new();
    for i in 0..5 {
        add_task(&mut ts, format!("task {}", i)).unwrap();
    }
    remove_task(&mut ts, 5).unwrap();
    remove_task(&mut ts, 2).unwrap();
    add_task(&mut ts, "more".to_string()).unwrap();
    add_task(&mut ts, "and more".to_string()).unwrap();
    let mut ids: Vec<u64> = ts.iter().map(|t| t.id).collect();
    assert_eq!(ids, vec![1, 3, 4, 5, 6]);
    ids.dedup();
    assert_eq!(ids.len(), ts.len());
}

#[test]
fn clear_needs_exactly_yes() {
    assert!(!confirms_clear("no\n"));
    assert!(confirms_clear("yes\n"));
    assert!(confirms_clear("  yes \r\n"));
    assert!(!confirms_clear("yess\n"));
    assert!(!confirms_clear("Yes\n"));
    assert!(!confirms_clear(""));
    assert!(!confirms_clear("y e s"));
}

#[test]
fn parse_command_routes_each_verb() {
    assert!(matches!(parse_command(&args(&[])), Ok(Command::Help)));
    assert!(matches!(parse_command(&args(&["help"])), Ok(Command::Help)));
    assert!(matches!(parse_command(&args(&["--help"])), Ok(Command::Help)));
    assert!(matches!(parse_command(&args(&["-h"])), Ok(Command::Help)));
    assert!(matches!(parse_command(&args(&["list"])), Ok(Command::List(false))));
    assert!(matches!(parse_command(&args(&["list", "--all"])), Ok(Command::List(true))));
    assert!(matches!(parse_command(&args(&["list", "x", "-a"])), Ok(Command::List(true))));
    assert!(matches!(parse_command(&args(&["done", "2"])), Ok(Command::Done(2))));
    assert!(matches!(parse_command(&args(&["rm", "4"])), Ok(Command::Remove(4))));
    assert!(matches!(parse_command(&args(&["remove", "4"])), Ok(Command::Remove(4))));
    assert!(matches!(parse_command(&args(&["clear", "now"])), Ok(Command::Clear)));
}

#[test]
fn parse_command_reports_each_error() {
    assert_eq!(parse_command(&args(&["add"])).err(), Some(CmdError::AddNeedsText));
    assert_eq!(parse_command(&args(&["add", ""])).err(), Some(CmdError::AddNeedsText));
    assert_eq!(parse_command(&args(&["done"])).err(), Some(CmdError::DoneNeedsId));
    assert_eq!(parse_command(&args(&["done", "1", "2"])).err(), Some(CmdError::DoneNeedsId));
    assert_eq!(parse_command(&args(&["rm"])).err(), Some(CmdError::RemoveNeedsId));
    assert_eq!(parse_command(&args(&["edit", "1"])).err(), Some(CmdError::EditNeedsIdAndText));
    assert_eq!(parse_command(&args(&["done", "abc"])).err(), Some(CmdError::InvalidId));
    assert_eq!(parse_command(&args(&["rm", "-2"])).err(), Some(CmdError::InvalidId));
    assert_eq!(parse_command(&args(&["edit", "x", "t"])).err(), Some(CmdError::InvalidId));
    assert_eq!(parse_command(&args(&["frobnicate"])).err(), Some(CmdError::UnknownCommand));
}

#[test]
fn add_with_an_empty_word_keeps_it() {
    match parse_command(&args(&["add", "a", "", "b"])).unwrap() {
        Command::Add(t) => assert_eq!(t, "a  b"),
        _ => panic!("expected add"),
    }
}

#[test]
fn add_with_only_empty_text_is_rejected() {
    assert_eq!(parse_command(&args(&["add", ""])).err(), Some(CmdError::AddNeedsText));
    match parse_command(&args(&["add", "", ""])).unwrap() {
        Command::Add(t) => assert_eq!(t, " "),
        _ => panic!("expected add"),
    }
}
