use todo_store::date::Date;
use todo_store::store::TodoList;

fn d(year: u32, month: u32, day: u32) -> Date {
    Date { year, month, day }
}

fn today() -> Date {
    d(2024, 1, 10)
}

#[test]
fn ids_increase_from_one_without_gaps() {
    let mut store = TodoList::new();
    assert_eq!(store.next_id(), 1);
    store.add("first".to_string(), None, today());
    store.add("second".to_string(), None, today());
    store.add("third".to_string(), None, today());
    let ids: Vec<u64> = store.tasks().iter().map(|t| t.id).collect();
    assert_eq!(ids, vec![1, 2, 3]);
    assert_eq!(store.next_id(), 4);
}

#[test]
fn ids_are_not_reused_after_delete() {
    let mut store = TodoList::new();
    store.add("a".to_string(), None, today());
    store.add("b".to_string(), None, today());
    assert!(store.delete(2));
    assert_eq!(store.next_id(), 3);
    store.add("c".to_string(), None, today());
    let ids: Vec<u64> = store.tasks().iter().map(|t| t.id).collect();
    assert_eq!(ids, vec![1, 3]);
}

#[test]
fn complete_twice_equals_complete_once() {
    let mut once = TodoList::new();
    once.add("a".to_string(), None, today());
    once.add("b".to_string(), None, today());
    let mut twice = TodoList::new();
    twice.add("a".to_string(), None, today());
    twice.add("b".to_string(), None, today());
    assert!(once.complete(2));
    assert!(twice.complete(2));
    assert!(twice.complete(2));
    assert_eq!(once.tasks(), twice.tasks());
    assert!(once.tasks()[1].completed);
}

#[test]
fn complete_unknown_id_changes_nothing() {
    let mut store = TodoList::new();
    store.add("a".to_string(), None, today());
    let before = store.tasks().clone();
    assert!(!store.complete(42));
    assert_eq!(store.tasks(), &before);
}

#[test]
fn delete_removes_exactly_one_and_keeps_other_ids() {
    let mut store = TodoList::new();
    store.add("a".to_string(), None, today());
    store.add("b".to_string(), None, today());
    store.add("c".to_string(), None, today());
    assert!(store.delete(2));
    let ids: Vec<u64> = store.tasks().iter().map(|t| t.id).collect();
    assert_eq!(ids, vec![1, 3]);
    assert_eq!(store.tasks()[0].task, "a");
    assert_eq!(store.tasks()[1].task, "c");
    assert!(!store.delete(2));
    assert_eq!(store.tasks().len(), 2);
}

#[test]
fn add_with_past_due_date_keeps_task_drops_date() {
    let mut store = TodoList::new();
    store.add("old".to_string(), Some(d(2024, 1, 9)), today());
    assert_eq!(store.tasks().len(), 1);
    assert_eq!(store.tasks()[0].due_date, None);
    assert_eq!(store.tasks()[0].task, "old");
}

#[test]
fn add_with_today_or_future_due_date_keeps_date() {
    let mut store = TodoList::new();
    store.add("now".to_string(), Some(today()), today());
    store.add("later".to_string(), Some(d(2024, 2, 1)), today());
    assert_eq!(store.tasks()[0].due_date, Some(today()));
    assert_eq!(store.tasks()[1].due_date, Some(d(2024, 2, 1)));
}

#[test]
fn load_missing_gives_empty_store() {
    let store = TodoList::load(None);
    assert_eq!(store.tasks().len(), 0);
    assert_eq!(store.next_id(), 1);
}

#[test]
fn load_corrupt_gives_empty_store() {
    for text in [
        "not the format",
        "[ { \"id\": 1 } ]",
        "[ { \"id\": 1, \"task\": \"a\", \"completed\": false, \"due_date\": null }",
        "[] trailing",
        "[ { \"task\": \"a\", \"id\": 1, \"completed\": false, \"due_date\": null } ]",
        "[ { \"id\": 1, \"task\": \"a\", \"completed\": false, \"due_date\": \"2024-13-01\" } ]",
    ] {
        let store = TodoList::load(Some(text));
        assert_eq!(store.tasks().len(), 0);
        assert_eq!(store.next_id(), 1);
    }
}

#[test]
fn load_recomputes_next_id_from_max() {
    let text = "[ { \"id\": 7, \"task\": \"a\", \"completed\": true, \"due_date\": null },\n  { \"id\": 3, \"task\": \"b\", \"completed\": false, \"due_date\": \"2024-01-05\" } ]";
    let store = TodoList::load(Some(text));
    assert_eq!(store.tasks().len(), 2);
    assert_eq!(store.next_id(), 8);
    assert_eq!(store.tasks()[0].id, 7);
    assert!(store.tasks()[0].completed);
    assert_eq!(store.tasks()[1].due_date, Some(d(2024, 1, 5)));
}

#[test]
fn save_then_load_round_trips() {
    let mut store = TodoList::new();
    store.add("plain".to_string(), None, today());
    store.add("dated".to_string(), Some(d(2024, 2, 29)), today());
    store.add("quote \" and \\ slash".to_string(), None, today());
    store.add("line\nbreak\ttab\rret".to_string(), Some(d(9999, 12, 31)), today());
    store.add("unicode: caf\u{e9} \u{1F600} \u{7} end".to_string(), None, today());
    store.add(String::new(), None, today());
    store.complete(2);
    let text = store.save();
    let reloaded = TodoList::load(Some(text.as_str()));
    assert_eq!(store.tasks(), reloaded.tasks());
    assert_eq!(reloaded.next_id(), 7);
}

#[test]
fn save_empty_then_load_round_trips() {
    let store = TodoList::new();
    let text = store.save();
    assert_eq!(text, "[]");
    let reloaded = TodoList::load(Some(text.as_str()));
    assert_eq!(reloaded.tasks().len(), 0);
    assert_eq!(reloaded.next_id(), 1);
}
