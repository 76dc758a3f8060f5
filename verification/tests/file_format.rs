use task_stack::codec::{encode_task, parse_task, usize_to_string};
use task_stack::errors::StoreError;
use task_stack::groups::{resolve_group_path, tasks_dir_name};
use task_stack::store::{Task, TaskStack};

fn entries_of(stack: &TaskStack) -> Vec<(String, bool)> {
    stack
        .tasks()
        .iter()
        .map(|t| (t.content.clone(), t.completed))
        .collect()
}

#[test]
fn encode_writes_position_flag_and_content() {
    let t = Task {
        content: "buy milk".to_string(),
        completed: false,
    };
    assert_eq!(encode_task(0, &t), "0,false,buy milk");
    let t2 = Task {
        content: "walk dog".to_string(),
        completed: true,
    };
    assert_eq!(encode_task(12, &t2), "12,true,walk dog");
}

#[test]
fn to_text_numbers_lines_by_position() {
    let mut s = TaskStack::new();
    s.add("a".to_string());
    s.add("b".to_string());
    s.complete(1).unwrap();
    assert_eq!(s.to_text(), "0,false,a\n1,true,b\n");
}

#[test]
fn parse_task_splits_on_first_two_delimiters_only() {
    let (num, completed, content) = parse_task("3,false,a,b".to_string()).unwrap();
    assert_eq!(num, 3);
    assert!(!completed);
    assert_eq!(content, "a,b");
}

#[test]
fn parse_task_keeps_content_verbatim() {
    let (_, completed, content) = parse_task("0,true,  spaced out  ".to_string()).unwrap();
    assert!(completed);
    assert_eq!(content, "  spaced out  ");
    let (_, _, empty) = parse_task("0,false,".to_string()).unwrap();
    assert_eq!(empty, "");
}

#[test]
fn parse_task_rejects_malformed_lines() {
    // fewer than three fields
    assert_eq!(parse_task("nonsense".to_string()), Err(StoreError::Parse));
    assert_eq!(parse_task("1,true".to_string()), Err(StoreError::Parse));
    // position not a non-negative integer
    assert_eq!(parse_task("x,true,a".to_string()), Err(StoreError::Parse));
    assert_eq!(parse_task("-1,true,a".to_string()), Err(StoreError::Parse));
    assert_eq!(parse_task(",true,a".to_string()), Err(StoreError::Parse));
    assert_eq!(
        parse_task("99999999999999999999999999,true,a".to_string()),
        Err(StoreError::Parse)
    );
    // flag not a boolean literal
    assert_eq!(parse_task("1,yes,a".to_string()), Err(StoreError::Parse));
    assert_eq!(parse_task("1,True,a".to_string()), Err(StoreError::Parse));
}

#[test]
fn stored_positions_are_advisory_only() {
    // Whatever numerals the lines carry, tasks are placed by line order.
    let s = TaskStack::from_text("g".to_string(), "5,false,x\n9,true,y\n").unwrap();
    assert_eq!(
        entries_of(&s),
        vec![("x".to_string(), false), ("y".to_string(), true)]
    );
    // Writing back renumbers from zero.
    assert_eq!(s.to_text(), "0,false,x\n1,true,y\n");
}

#[test]
fn from_text_accepts_a_missing_final_newline() {
    let s = TaskStack::from_text("g".to_string(), "0,true,z").unwrap();
    assert_eq!(entries_of(&s), vec![("z".to_string(), true)]);
}

#[test]
fn from_text_of_empty_text_is_an_empty_store() {
    let s = TaskStack::from_text("g".to_string(), "").unwrap();
    assert_eq!(s.num_tasks(), 0);
}

#[test]
fn one_malformed_line_fails_the_whole_load() {
    let text = "0,false,good\nbad line\n2,true,also good\n";
    assert!(TaskStack::from_text("g".to_string(), text).is_err());
}

#[test]
fn round_trip_preserves_order_content_and_flags() {
    let mut s = TaskStack::new();
    s.add("first".to_string());
    s.add("second".to_string());
    s.add("".to_string());
    s.add("fourth".to_string());
    s.complete(1).unwrap();
    s.complete(3).unwrap();
    let reloaded = TaskStack::from_text(s.name(), &s.to_text()).unwrap();
    assert_eq!(entries_of(&reloaded), entries_of(&s));
    assert_eq!(reloaded.to_text(), s.to_text());
}

#[test]
fn content_with_delimiters_survives_a_round_trip() {
    let mut s = TaskStack::new();
    s.add("hello, world, again".to_string());
    s.add(",,leading".to_string());
    s.add("true,false".to_string());
    let reloaded = TaskStack::from_text(s.name(), &s.to_text()).unwrap();
    assert_eq!(entries_of(&reloaded), entries_of(&s));
}

#[test]
fn empty_store_writes_empty_text_and_reloads_empty() {
    let s = TaskStack::new();
    assert_eq!(s.to_text(), "");
    let reloaded = TaskStack::from_text(s.name(), &s.to_text()).unwrap();
    assert_eq!(reloaded.num_tasks(), 0);
}

#[test]
fn usize_to_string_writes_plain_decimal() {
    assert_eq!(usize_to_string(0), "0");
    assert_eq!(usize_to_string(10), "10");
    assert_eq!(usize_to_string(907), "907");
}

#[test]
fn error_messages_name_the_offending_number() {
    assert_eq!(
        StoreError::Index(42).message(),
        "no task with number 42"
    );
    assert_eq!(StoreError::Parse.message(), "malformed task line");
    assert_eq!(StoreError::NotFound.message(), "task group not found");
    assert_eq!(StoreError::Io.message(), "unable to write tasks");
}

#[test]
fn group_paths_join_the_tasks_directory_and_name() {
    assert_eq!(tasks_dir_name(), ".tasks");
    assert_eq!(resolve_group_path("work"), ".tasks/work");
    assert_eq!(resolve_group_path("miscellaneous"), ".tasks/miscellaneous");
}
