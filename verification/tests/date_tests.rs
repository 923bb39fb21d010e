use todo_store::clock::current_date;
use todo_store::date::{format_dmy, parse_dmy, parse_ymd_str, urgency, Date, Urgency};

fn d(year: u32, month: u32, day: u32) -> Date {
    Date { year, month, day }
}

#[test]
fn new_accepts_real_days_only() {
    assert_eq!(Date::new(2024, 2, 29), Some(d(2024, 2, 29)));
    assert_eq!(Date::new(2023, 2, 29), None);
    assert_eq!(Date::new(1900, 2, 29), None);
    assert_eq!(Date::new(2000, 2, 29), Some(d(2000, 2, 29)));
    assert_eq!(Date::new(2024, 4, 31), None);
    assert_eq!(Date::new(2024, 13, 1), None);
    assert_eq!(Date::new(2024, 0, 1), None);
    assert_eq!(Date::new(2024, 1, 0), None);
    assert_eq!(Date::new(0, 1, 1), None);
    assert_eq!(Date::new(10000, 1, 1), None);
}

#[test]
fn parse_dmy_reads_user_dates() {
    assert_eq!(parse_dmy("10-01-2024"), Some(d(2024, 1, 10)));
    assert_eq!(parse_dmy("29-02-2024"), Some(d(2024, 2, 29)));
    assert_eq!(parse_dmy("29-02-2023"), None);
    assert_eq!(parse_dmy("2024-01-10"), None);
    assert_eq!(parse_dmy("1-1-2024"), None);
    assert_eq!(parse_dmy("10/01/2024"), None);
    assert_eq!(parse_dmy(""), None);
    assert_eq!(parse_dmy("aa-bb-cccc"), None);
}

#[test]
fn parse_ymd_reads_persisted_dates() {
    assert_eq!(parse_ymd_str(&"2024-01-10".to_string()), Some(d(2024, 1, 10)));
    assert_eq!(parse_ymd_str(&"2024-02-30".to_string()), None);
    assert_eq!(parse_ymd_str(&"10-01-2024".to_string()), None);
}

#[test]
fn format_dmy_zero_pads() {
    assert_eq!(format_dmy(&d(2024, 1, 5)), "05-01-2024");
    assert_eq!(format_dmy(&d(987, 11, 30)), "30-11-0987");
}

#[test]
fn urgency_labels_relative_to_today() {
    let today = d(2024, 1, 10);
    assert_eq!(urgency(d(2024, 1, 9), false, today), Urgency::Overdue);
    assert_eq!(urgency(d(2023, 12, 31), false, today), Urgency::Overdue);
    assert_eq!(urgency(d(2024, 1, 10), false, today), Urgency::DueToday);
    assert_eq!(urgency(d(2024, 1, 11), false, today), Urgency::DueTomorrow);
    assert_eq!(urgency(d(2024, 1, 12), false, today), Urgency::DueInDays(2));
    assert_eq!(urgency(d(2024, 1, 13), false, today), Urgency::DueInDays(3));
    assert_eq!(urgency(d(2024, 1, 14), false, today), Urgency::Later);
}

#[test]
fn completed_tasks_show_no_urgency() {
    let today = d(2024, 1, 10);
    assert_eq!(urgency(d(2024, 1, 9), true, today), Urgency::Later);
    assert_eq!(urgency(d(2024, 1, 10), true, today), Urgency::Later);
}

#[test]
fn urgency_counts_days_across_month_and_year_ends() {
    assert_eq!(urgency(d(2024, 3, 1), false, d(2024, 2, 29)), Urgency::DueTomorrow);
    assert_eq!(urgency(d(2025, 1, 1), false, d(2024, 12, 31)), Urgency::DueTomorrow);
    assert_eq!(urgency(d(2023, 3, 1), false, d(2023, 2, 27)), Urgency::DueInDays(2));
}

#[test]
fn labels_spell_the_urgency() {
    assert_eq!(Urgency::Overdue.label(), "OVERDUE");
    assert_eq!(Urgency::DueToday.label(), "DUE TODAY");
    assert_eq!(Urgency::DueTomorrow.label(), "Due tomorrow");
    assert_eq!(Urgency::DueInDays(2).label(), "Due in 2 days");
    assert_eq!(Urgency::DueInDays(3).label(), "Due in 3 days");
    assert_eq!(Urgency::Later.label(), "");
}

#[test]
fn clock_hands_out_a_real_calendar_day() {
    let today = current_date().expect("the clock's year fits the calendar range");
    assert!(1 <= today.month && today.month <= 12);
    assert!(1 <= today.day && today.day <= 31);
    assert!(2020 <= today.year && today.year <= 9999);
    assert_eq!(Date::new(today.year, today.month, today.day), Some(today));
}
