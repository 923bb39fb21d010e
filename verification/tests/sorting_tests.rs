use todo_store::date::Date;
use todo_store::store::TodoList;

fn d(year: u32, month: u32, day: u32) -> Date {
    Date { year, month, day }
}

fn today() -> Date {
    d(2024, 1, 1)
}

#[test]
fn list_orders_dated_before_undated_and_by_date() {
    let mut store = TodoList::new();
    store.add("one".to_string(), Some(d(2024, 1, 10)), today());
    store.add("two".to_string(), Some(d(2024, 1, 5)), today());
    store.add("three".to_string(), None, today());
    let shown = store.list();
    let ids: Vec<u64> = shown.iter().map(|t| t.id).collect();
    assert_eq!(ids, vec![2, 1, 3]);
}

#[test]
fn list_does_not_touch_stored_order() {
    let mut store = TodoList::new();
    store.add("one".to_string(), Some(d(2024, 1, 10)), today());
    store.add("two".to_string(), Some(d(2024, 1, 5)), today());
    let _ = store.list();
    let ids: Vec<u64> = store.tasks().iter().map(|t| t.id).collect();
    assert_eq!(ids, vec![1, 2]);
}

#[test]
fn equal_dates_keep_insertion_order() {
    let mut store = TodoList::new();
    store.add("a".to_string(), Some(d(2024, 3, 1)), today());
    store.add("b".to_string(), Some(d(2024, 3, 1)), today());
    store.add("c".to_string(), Some(d(2024, 2, 1)), today());
    let shown = store.list();
    let names: Vec<String> = shown.iter().map(|t| t.task.clone()).collect();
    assert_eq!(names, vec!["c", "a", "b"]);
}

#[test]
fn undated_tasks_sort_by_id() {
    let text = "[ { \"id\": 9, \"task\": \"x\", \"completed\": false, \"due_date\": null },\n  { \"id\": 2, \"task\": \"y\", \"completed\": false, \"due_date\": null } ]";
    let store = TodoList::load(Some(text));
    let shown = store.list();
    let ids: Vec<u64> = shown.iter().map(|t| t.id).collect();
    assert_eq!(ids, vec![2, 9]);
}

#[test]
fn dates_order_chronologically_across_years() {
    let mut store = TodoList::new();
    store.add("late".to_string(), Some(d(2025, 1, 1)), today());
    store.add("early".to_string(), Some(d(2024, 12, 31)), today());
    let shown = store.list();
    assert_eq!(shown[0].task, "early");
    assert_eq!(shown[1].task, "late");
}
