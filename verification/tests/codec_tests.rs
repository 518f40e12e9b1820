use tasklist::{load_tasks, parse_due_date, save_tasks, Date, Priority, Task};

fn task(id: usize, text: &str, done: bool) -> Task {
    Task {
        id,
        text: text.to_string(),
        done,
        due: None,
        priority: Priority::Normal,
        tags: vec![],
    }
}

#[test]
fn test_save_and_load_tasks() {
    let tasks = vec![task(1, "Task 1", false), task(2, "Task 2", true)];

    let stored = save_tasks(&tasks);

    let loaded_tasks = load_tasks(Some(&stored)).unwrap();
    assert_eq!(loaded_tasks.len(), 2);
    assert_eq!(loaded_tasks[0].text, "Task 1");
    assert_eq!(loaded_tasks[1].done, true);
}

#[test]
fn test_load_non_existent_file() {
    let tasks = load_tasks(None).unwrap();
    assert!(tasks.is_empty());
}

#[test]
fn round_trip_keeps_every_field() {
    let t = Task {
        id: 41,
        text: "say \"hi\" \\ twice\nand a tab\there".to_string(),
        done: true,
        due: Some(Date { year: 2025, month: 2, day: 28 }),
        priority: Priority::High,
        tags: vec!["Work".to_string(), "week-end".to_string()],
    };
    let u = Task {
        id: 42,
        text: "plain".to_string(),
        done: false,
        due: None,
        priority: Priority::Low,
        tags: vec![],
    };
    let tasks = vec![t, u];
    let stored = save_tasks(&tasks);
    let loaded = load_tasks(Some(&stored)).unwrap();
    assert_eq!(loaded.len(), 2);
    assert_eq!(loaded[0].id, 41);
    assert_eq!(loaded[0].text, "say \"hi\" \\ twice\nand a tab\there");
    assert_eq!(loaded[0].done, true);
    assert_eq!(loaded[0].due, Some(Date { year: 2025, month: 2, day: 28 }));
    assert!(matches!(loaded[0].priority, Priority::High));
    assert_eq!(loaded[0].tags, vec!["Work".to_string(), "week-end".to_string()]);
    assert_eq!(loaded[1].id, 42);
    assert_eq!(loaded[1].due, None);
    assert!(matches!(loaded[1].priority, Priority::Low));
    assert!(loaded[1].tags.is_empty());
}

#[test]
fn round_trip_of_empty_collection() {
    let tasks: Vec<Task> = Vec::new();
    let stored = save_tasks(&tasks);
    let loaded = load_tasks(Some(&stored)).unwrap();
    assert!(loaded.is_empty());
}

#[test]
fn stored_form_is_the_expected_document() {
    let tasks = vec![task(7, "a", false)];
    let stored = save_tasks(&tasks);
    assert_eq!(
        stored,
        "[{\"id\":7,\"text\":\"a\",\"done\":false,\"due\":null,\"priority\":\"normal\",\"tags\":[]}]"
    );
}

#[test]
fn load_fills_missing_fields_with_defaults() {
    let old_doc = "[{\"id\":1,\"text\":\"a\",\"done\":false}]";
    let loaded = load_tasks(Some(old_doc)).unwrap();
    assert_eq!(loaded.len(), 1);
    assert_eq!(loaded[0].id, 1);
    assert_eq!(loaded[0].due, None);
    assert!(matches!(loaded[0].priority, Priority::Normal));
    assert!(loaded[0].tags.is_empty());
}

#[test]
fn load_accepts_whitespace_and_null_due() {
    let doc = "[\n  {\n    \"id\": 2,\n    \"text\": \"b\",\n    \"done\": true,\n    \"due\": null,\n    \"priority\": \"high\",\n    \"tags\": [ \"x\" , \"y\" ]\n  }\n]\n";
    let loaded = load_tasks(Some(doc)).unwrap();
    assert_eq!(loaded.len(), 1);
    assert_eq!(loaded[0].due, None);
    assert!(matches!(loaded[0].priority, Priority::High));
    assert_eq!(loaded[0].tags, vec!["x".to_string(), "y".to_string()]);
}

#[test]
fn load_reads_escapes_and_unicode() {
    let doc = "[{\"id\":1,\"text\":\"A\\u0041 \\n \\\" tail\",\"done\":false}]";
    let loaded = load_tasks(Some(doc)).unwrap();
    assert_eq!(loaded[0].text, "AA \n \" tail");
}

#[test]
fn malformed_documents_are_refused() {
    assert!(load_tasks(Some("")).is_err());
    assert!(load_tasks(Some("not json")).is_err());
    assert!(load_tasks(Some("[{\"id\":1}]")).is_err());
    assert!(load_tasks(Some("[{\"id\":1,\"text\":\"a\",\"done\":false}] trailing")).is_err());
    assert!(load_tasks(Some("[{\"id\":1,\"id\":2,\"text\":\"a\",\"done\":false}]")).is_err());
    assert!(load_tasks(Some("[{\"id\":99999999999999999999999,\"text\":\"a\",\"done\":false}]"))
        .is_err());
    assert!(load_tasks(Some("[{\"id\":1,\"text\":\"a\",\"done\":false,\"due\":\"2025-02-30\"}]"))
        .is_err());
}

#[test]
fn parse_due_date_accepts_real_dates() {
    assert_eq!(parse_due_date("2025-02-01"), Ok(Date { year: 2025, month: 2, day: 1 }));
    assert_eq!(parse_due_date("2024-02-29"), Ok(Date { year: 2024, month: 2, day: 29 }));
    assert_eq!(parse_due_date("2000-02-29"), Ok(Date { year: 2000, month: 2, day: 29 }));
}

#[test]
fn parse_due_date_rejects_bad_input() {
    assert!(parse_due_date("2023-02-29").is_err());
    assert!(parse_due_date("2025-13-01").is_err());
    assert!(parse_due_date("2025-00-10").is_err());
    assert!(parse_due_date("2025-04-31").is_err());
    assert!(parse_due_date("1900-02-29").is_err());
    assert!(parse_due_date("02-01-2025").is_err());
    assert!(parse_due_date("garbage").is_err());
    assert!(parse_due_date("").is_err());
}
