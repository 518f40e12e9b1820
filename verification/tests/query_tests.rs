use tasklist::query::{
    empty_state, filter_search, filter_status, filter_tags, run_query, sort_tasks,
    task_has_all_tags, EmptyState,
};
use tasklist::repo::{add_task, mark_done};
use tasklist::{matches_search, Date, Priority, SortBy, Task};

fn task(id: usize, text: &str, done: bool) -> Task {
    Task {
        id,
        text: text.to_string(),
        done,
        due: None,
        priority: Priority::Normal,
        tags: vec![],
    }
}

fn dated(id: usize, text: &str, due: Option<Date>) -> Task {
    Task {
        id,
        text: text.to_string(),
        done: false,
        due,
        priority: Priority::Normal,
        tags: vec![],
    }
}

fn ids(tasks: &Vec<Task>) -> Vec<usize> {
    let mut out = Vec::new();
    for t in tasks {
        out.push(t.id);
    }
    out
}

#[test]
fn status_filter_keeps_only_requested() {
    let tasks = vec![task(1, "a", true), task(2, "b", false), task(3, "c", true)];
    assert_eq!(ids(&filter_status(&tasks, true, false)), vec![1, 3]);
    assert_eq!(ids(&filter_status(&tasks, false, true)), vec![2]);
}

#[test]
fn both_status_flags_act_like_neither() {
    let tasks = vec![task(1, "a", true), task(2, "b", false), task(3, "c", true)];
    let both = filter_status(&tasks, true, true);
    let neither = filter_status(&tasks, false, false);
    assert_eq!(ids(&both), vec![1, 2, 3]);
    assert_eq!(ids(&neither), vec![1, 2, 3]);
}

#[test]
fn search_is_case_insensitive() {
    let t = task(1, "Buy Milk", false);
    assert!(matches_search(&t, "milk"));
    assert!(matches_search(&t, "MILK"));
    assert!(matches_search(&t, "uy m"));
    assert!(!matches_search(&t, "bread"));
    assert!(matches_search(&t, ""));
}

#[test]
fn search_filter_keeps_matching_tasks() {
    let tasks = vec![task(1, "Buy milk", false), task(2, "Call Bob", false)];
    assert_eq!(ids(&filter_search(&tasks, "call")), vec![2]);
    assert_eq!(ids(&filter_search(&tasks, "zzz")), Vec::<usize>::new());
}

#[test]
fn tag_match_ignores_ascii_case() {
    let mut t = task(1, "a", false);
    t.tags = vec!["work".to_string(), "home".to_string()];
    assert!(task_has_all_tags(&t, &vec!["Work".to_string()]));
    assert!(task_has_all_tags(&t, &vec!["WORK".to_string(), "Home".to_string()]));
    assert!(!task_has_all_tags(&t, &vec!["Work".to_string(), "shop".to_string()]));
}

#[test]
fn tag_filter_requires_every_tag_and_skips_unmatched() {
    let mut a = task(1, "a", false);
    a.tags = vec!["work".to_string()];
    let mut b = task(2, "b", false);
    b.tags = vec!["play".to_string()];
    let tasks = vec![a, b];
    let kept = filter_tags(&tasks, &vec!["Work".to_string()]);
    assert_eq!(ids(&kept), vec![1]);
    let all = filter_tags(&tasks, &vec![]);
    assert_eq!(ids(&all), vec![1, 2]);
}

#[test]
fn sort_by_id_orders_ascending() {
    let tasks = vec![task(3, "c", false), task(1, "a", false), task(2, "b", false)];
    let sorted = sort_tasks(&tasks, SortBy::Id);
    assert_eq!(ids(&sorted), vec![1, 2, 3]);
}

#[test]
fn sort_by_date_puts_dated_before_undated() {
    let d1 = Date { year: 2025, month: 1, day: 1 };
    let d2 = Date { year: 2025, month: 6, day: 1 };
    let tasks = vec![
        dated(1, "jan", Some(d1)),
        dated(2, "none", None),
        dated(3, "jun", Some(d2)),
    ];
    let sorted = sort_tasks(&tasks, SortBy::Date);
    assert_eq!(ids(&sorted), vec![1, 3, 2]);
}

#[test]
fn sort_by_date_breaks_ties_and_orders_undated_by_id() {
    let d = Date { year: 2025, month: 3, day: 15 };
    let tasks = vec![
        dated(4, "b", Some(d)),
        dated(2, "u2", None),
        dated(3, "a", Some(d)),
        dated(1, "u1", None),
    ];
    let sorted = sort_tasks(&tasks, SortBy::Date);
    assert_eq!(ids(&sorted), vec![3, 4, 1, 2]);
}

#[test]
fn listing_pipeline_end_to_end() {
    let mut tasks: Vec<Task> = Vec::new();
    add_task(&mut tasks, "Buy milk".to_string(), None, Priority::Normal, vec![]);
    add_task(&mut tasks, "Call Bob".to_string(), None, Priority::Normal, vec![]);
    assert!(mark_done(&mut tasks, 1));
    let shown = run_query(&tasks, false, true, None, &vec![], SortBy::Id);
    assert_eq!(shown.len(), 1);
    assert_eq!(shown[0].id, 2);
    assert_eq!(shown[0].text, "Call Bob");
}

#[test]
fn pipeline_applies_search_and_tags_together() {
    let mut a = task(1, "Write report", false);
    a.tags = vec!["work".to_string()];
    let mut b = task(2, "Write diary", false);
    b.tags = vec!["home".to_string()];
    let c = task(3, "Nap", false);
    let tasks = vec![a, b, c];
    let kw = "write".to_string();
    let shown = run_query(&tasks, false, false, Some(&kw), &vec!["Work".to_string()], SortBy::Id);
    assert_eq!(ids(&shown), vec![1]);
}

#[test]
fn empty_state_distinguishes_reasons() {
    assert_eq!(empty_state(3, 2, false, false), None);
    assert_eq!(empty_state(0, 0, false, false), Some(EmptyState::NoTasks));
    assert_eq!(empty_state(3, 0, true, false), Some(EmptyState::NoDone));
    assert_eq!(empty_state(3, 0, false, true), Some(EmptyState::NoPending));
    assert_eq!(empty_state(3, 0, false, false), Some(EmptyState::NoMatches));
    assert_eq!(empty_state(3, 0, true, true), Some(EmptyState::NoMatches));
}
