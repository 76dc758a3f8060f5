use task_stack::errors::StoreError;
use task_stack::store::TaskStack;

fn stack_of(entries: &[(&str, bool)]) -> TaskStack {
    let mut text = String::new();
    for (k, (content, completed)) in entries.iter().enumerate() {
        text.push_str(&format!("{},{},{}\n", k, completed, content));
    }
    TaskStack::from_text("miscellaneous".to_string(), &text).unwrap()
}

fn entries_of(stack: &TaskStack) -> Vec<(String, bool)> {
    stack
        .tasks()
        .iter()
        .map(|t| (t.content.clone(), t.completed))
        .collect()
}

#[test]
fn new_store_is_empty_with_default_name() {
    let s = TaskStack::new();
    assert_eq!(s.num_tasks(), 0);
    assert_eq!(s.num_tasks_completed(), 0);
    assert_eq!(s.name(), "miscellaneous");
    assert!(s.tasks().is_empty());
}

#[test]
fn add_appends_incomplete_tasks_in_order() {
    let mut s = TaskStack::new();
    s.add("first".to_string());
    s.add("second".to_string());
    assert_eq!(s.num_tasks(), 2);
    assert_eq!(s.num_tasks_completed(), 0);
    assert_eq!(
        entries_of(&s),
        vec![
            ("first".to_string(), false),
            ("second".to_string(), false)
        ]
    );
}

#[test]
fn complete_marks_only_that_task() {
    let mut s = stack_of(&[("buy milk", false), ("walk dog", false)]);
    assert!(s.complete(0).is_ok());
    assert_eq!(
        entries_of(&s),
        vec![
            ("buy milk".to_string(), true),
            ("walk dog".to_string(), false)
        ]
    );
    // The same result survives a full write/read cycle.
    let reloaded = TaskStack::from_text("miscellaneous".to_string(), &s.to_text()).unwrap();
    assert_eq!(entries_of(&reloaded), entries_of(&s));
}

#[test]
fn complete_twice_equals_complete_once() {
    let mut once = stack_of(&[("a", false), ("b", false)]);
    assert!(once.complete(1).is_ok());
    let mut twice = stack_of(&[("a", false), ("b", false)]);
    assert!(twice.complete(1).is_ok());
    assert!(twice.complete(1).is_ok());
    assert_eq!(entries_of(&once), entries_of(&twice));
    assert_eq!(once.to_text(), twice.to_text());
}

#[test]
fn complete_out_of_range_reports_and_changes_nothing() {
    let mut s = stack_of(&[("a", false), ("b", true)]);
    let before = entries_of(&s);
    let r = s.complete(2);
    assert_eq!(r, Err(StoreError::Index(2)));
    assert_eq!(entries_of(&s), before);
    assert_eq!(r.unwrap_err().message(), "no task with number 2");
}

#[test]
fn remove_drops_one_and_keeps_order() {
    let mut s = stack_of(&[("a", false), ("b", true), ("c", false)]);
    assert!(s.remove(1).is_ok());
    assert_eq!(s.num_tasks(), 2);
    assert_eq!(
        entries_of(&s),
        vec![("a".to_string(), false), ("c".to_string(), false)]
    );
}

#[test]
fn remove_out_of_range_reports_and_changes_nothing() {
    let mut s = stack_of(&[("a", false)]);
    let before = entries_of(&s);
    let r = s.remove(1);
    assert_eq!(r, Err(StoreError::Index(1)));
    assert_eq!(entries_of(&s), before);
    assert_eq!(r.unwrap_err().message(), "no task with number 1");
}

#[test]
fn remove_completed_with_none_completed_returns_false_and_keeps_bytes() {
    let mut s = stack_of(&[("a", false), ("b", false)]);
    let before = s.to_text();
    assert!(!s.remove_completed());
    assert_eq!(s.num_tasks(), 2);
    assert_eq!(s.to_text(), before);
}

#[test]
fn remove_completed_drops_exactly_the_completed() {
    let mut s = stack_of(&[("a", true), ("b", false), ("c", true)]);
    assert_eq!(s.num_tasks_completed(), 2);
    assert!(s.remove_completed());
    assert_eq!(entries_of(&s), vec![("b".to_string(), false)]);
    assert_eq!(s.num_tasks(), 1);
    assert_eq!(s.num_tasks_completed(), 0);
}

#[test]
fn num_tasks_completed_counts_fresh() {
    let mut s = stack_of(&[("a", false), ("b", false), ("c", false)]);
    assert_eq!(s.num_tasks_completed(), 0);
    s.complete(0).unwrap();
    s.complete(2).unwrap();
    assert_eq!(s.num_tasks_completed(), 2);
    assert_eq!(s.num_tasks(), 3);
}

#[test]
fn from_text_carries_the_given_name() {
    let s = TaskStack::from_text("work".to_string(), "").unwrap();
    assert_eq!(s.name(), "work");
    assert_eq!(s.num_tasks(), 0);
}
