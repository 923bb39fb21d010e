use todo_store::date::Date;
use todo_store::store::TodoList;

fn d(year: u32, month: u32, day: u32) -> Date {
    Date { year, month, day }
}

fn today() -> Date {
    d(2024, 1, 1)
}

#[test]
fn save_writes_the_documented_shape() {
    let mut store = TodoList::new();
    store.add("buy milk".to_string(), Some(d(2024, 1, 10)), today());
    let text = store.save();
    let expected = "[\n  {\n    \"id\": 1,\n    \"task\": \"buy milk\",\n    \"completed\": false,\n    \"due_date\": \"2024-01-10\"\n  }\n]";
    assert_eq!(text, expected);
}

#[test]
fn save_escapes_quotes_backslashes_and_controls() {
    let mut store = TodoList::new();
    store.add("a\"b\\c\nd\te\rf\u{1}g".to_string(), None, today());
    let text = store.save();
    let expected = "[\n  {\n    \"id\": 1,\n    \"task\": \"a\\\"b\\\\c\\nd\\te\\rf\\u0001g\",\n    \"completed\": false,\n    \"due_date\": null\n  }\n]";
    assert_eq!(text, expected);
}

#[test]
fn load_accepts_free_whitespace() {
    let text = "  [ \n\t{ \"id\" : 1 , \"task\" : \"a\" , \"completed\" : true , \"due_date\" : null } , { \"id\": 2, \"task\": \"b\", \"completed\": false, \"due_date\": \"2024-06-01\" } ]  ";
    let store = TodoList::load(Some(text));
    assert_eq!(store.tasks().len(), 2);
    assert!(store.tasks()[0].completed);
    assert_eq!(store.tasks()[1].due_date, Some(d(2024, 6, 1)));
    assert_eq!(store.next_id(), 3);
}

#[test]
fn load_resolves_standard_escapes() {
    let text = "[ { \"id\": 1, \"task\": \"q\\\" b\\\\ s\\/ n\\n r\\r t\\t b\\b f\\f u\\u0041 c\\u0002\", \"completed\": false, \"due_date\": null } ]";
    let store = TodoList::load(Some(text));
    assert_eq!(
        store.tasks()[0].task,
        "q\" b\\ s/ n\n r\r t\t b\u{8} f\u{c} uA c\u{2}"
    );
}

#[test]
fn load_rejects_bad_escapes_and_raw_controls() {
    for text in [
        "[ { \"id\": 1, \"task\": \"bad \\x\", \"completed\": false, \"due_date\": null } ]",
        "[ { \"id\": 1, \"task\": \"bad \\u00\", \"completed\": false, \"due_date\": null } ]",
        "[ { \"id\": 1, \"task\": \"raw \u{1} control\", \"completed\": false, \"due_date\": null } ]",
        "[ { \"id\": 1, \"task\": \"unterminated, \"completed\": false, \"due_date\": null } ]",
    ] {
        let store = TodoList::load(Some(text));
        assert_eq!(store.tasks().len(), 0);
        assert_eq!(store.next_id(), 1);
    }
}

#[test]
fn load_rejects_ids_that_leave_no_next_id() {
    let top = "[ { \"id\": 18446744073709551615, \"task\": \"a\", \"completed\": false, \"due_date\": null } ]";
    let store = TodoList::load(Some(top));
    assert_eq!(store.tasks().len(), 0);
    let near_top = "[ { \"id\": 18446744073709551614, \"task\": \"a\", \"completed\": false, \"due_date\": null } ]";
    let store = TodoList::load(Some(near_top));
    assert_eq!(store.tasks().len(), 1);
    assert_eq!(store.tasks()[0].id, 18446744073709551614);
    assert_eq!(store.next_id(), 18446744073709551615);
}

#[test]
fn load_rejects_oversized_numbers() {
    let text = "[ { \"id\": 99999999999999999999999, \"task\": \"a\", \"completed\": false, \"due_date\": null } ]";
    let store = TodoList::load(Some(text));
    assert_eq!(store.tasks().len(), 0);
}

#[test]
fn round_trip_after_every_mutation() {
    let mut store = TodoList::new();
    store.add("a".to_string(), Some(d(2024, 5, 1)), today());
    store.add("b".to_string(), None, today());
    store.complete(1);
    store.delete(2);
    store.add("c".to_string(), Some(d(2024, 5, 1)), today());
    let reloaded = TodoList::load(Some(store.save().as_str()));
    assert_eq!(store.tasks(), reloaded.tasks());
    assert_eq!(reloaded.next_id(), 4);
}
