use tasklist::repo::{add_task, clear, edit_text, mark_done, next_id, remove};
use tasklist::{Date, Priority, Task};

fn task(id: usize, text: &str, done: bool) -> Task {
    Task {
        id,
        text: text.to_string(),
        done,
        due: None,
        priority: Priority::Normal,
        tags: vec![],
    }
}

#[test]
fn test_next_id() {
    let tasks = vec![];
    assert_eq!(next_id(&tasks), 1);

    let tasks = vec![task(1, "a", false), task(3, "b", true)];
    assert_eq!(next_id(&tasks), 4);
}

#[test]
fn next_id_reuses_highest_after_removal() {
    let mut tasks = vec![task(1, "a", false), task(2, "b", false), task(5, "c", false)];
    assert!(remove(&mut tasks, 5));
    assert_eq!(next_id(&tasks), 3);
}

#[test]
fn add_assigns_fresh_ids() {
    let mut tasks: Vec<Task> = Vec::new();
    let first = add_task(&mut tasks, "one".to_string(), None, Priority::Low, vec![]);
    let second = add_task(&mut tasks, "two".to_string(), None, Priority::High, vec![]);
    assert_eq!(first, 1);
    assert_eq!(second, 2);
    assert_eq!(tasks.len(), 2);
    assert_eq!(tasks[0].text, "one");
    assert!(matches!(tasks[1].priority, Priority::High));
    assert!(!tasks[0].done);
}

#[test]
fn mark_done_is_idempotent_and_reports_found() {
    let mut tasks = vec![task(1, "a", false), task(2, "b", false)];
    assert!(mark_done(&mut tasks, 2));
    assert!(tasks[1].done);
    assert!(mark_done(&mut tasks, 2));
    assert!(tasks[1].done);
    assert!(!tasks[0].done);
    assert_eq!(tasks.len(), 2);
}

#[test]
fn mark_done_missing_id_changes_nothing() {
    let mut tasks = vec![task(1, "a", false)];
    assert!(!mark_done(&mut tasks, 9));
    assert!(!tasks[0].done);
}

#[test]
fn edit_text_replaces_only_the_text() {
    let mut tasks = vec![task(1, "old", false), task(2, "keep", true)];
    let new_text = "new".to_string();
    assert!(edit_text(&mut tasks, 1, &new_text));
    assert_eq!(tasks[0].text, "new");
    assert_eq!(tasks[0].id, 1);
    assert!(!tasks[0].done);
    assert_eq!(tasks[1].text, "keep");
    assert!(!edit_text(&mut tasks, 7, &new_text));
    assert_eq!(tasks[0].text, "new");
}

#[test]
fn remove_missing_id_reports_not_found_and_keeps_all() {
    let mut tasks = vec![task(1, "a", false), task(2, "b", true)];
    assert!(!remove(&mut tasks, 3));
    assert_eq!(tasks.len(), 2);
    assert_eq!(tasks[0].id, 1);
    assert_eq!(tasks[1].id, 2);
    assert_eq!(tasks[0].text, "a");
    assert_eq!(tasks[1].text, "b");
}

#[test]
fn remove_deletes_the_matching_task() {
    let mut tasks = vec![task(1, "a", false), task(2, "b", true), task(3, "c", false)];
    assert!(remove(&mut tasks, 2));
    assert_eq!(tasks.len(), 2);
    assert_eq!(tasks[0].id, 1);
    assert_eq!(tasks[1].id, 3);
}

#[test]
fn clear_twice_leaves_empty_both_times() {
    let mut tasks = vec![task(1, "a", false), task(2, "b", true)];
    clear(&mut tasks);
    assert!(tasks.is_empty());
    clear(&mut tasks);
    assert!(tasks.is_empty());
}
