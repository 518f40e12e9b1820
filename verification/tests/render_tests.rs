use tasklist::render::{count_done, date_text, priority_label, status_label, tags_text};
use tasklist::{Date, Priority, Task};

fn task(id: usize, done: bool) -> Task {
    Task {
        id,
        text: "t".to_string(),
        done,
        due: None,
        priority: Priority::Normal,
        tags: vec![],
    }
}

#[test]
fn status_labels_match_the_listing_format() {
    assert_eq!(status_label(true), "[x]");
    assert_eq!(status_label(false), "[ ]");
}

#[test]
fn priority_labels_match_the_listing_format() {
    assert_eq!(priority_label(Priority::High), "HIGH");
    assert_eq!(priority_label(Priority::Normal), "NORM");
    assert_eq!(priority_label(Priority::Low), "LOW");
}

#[test]
fn date_text_is_zero_padded() {
    assert_eq!(date_text(&Date { year: 2025, month: 6, day: 1 }), "2025-06-01");
    assert_eq!(date_text(&Date { year: 987, month: 12, day: 31 }), "0987-12-31");
}

#[test]
fn tags_text_joins_with_commas() {
    assert_eq!(tags_text(&vec![]), "");
    assert_eq!(tags_text(&vec!["a".to_string()]), "a");
    assert_eq!(tags_text(&vec!["a".to_string(), "b".to_string(), "c".to_string()]), "a,b,c");
}

#[test]
fn count_done_counts_exactly() {
    let tasks = vec![task(1, true), task(2, false), task(3, true)];
    assert_eq!(count_done(&tasks), 2);
    let none: Vec<Task> = Vec::new();
    assert_eq!(count_done(&none), 0);
}
