//! Plain calendar dates (proleptic Gregorian), their ordering, day
//! numbering, and the urgency labelling of a due date relative to the
//! current date.

use vstd::prelude::*;
use vstd::string::{StrSliceExecFns, StringExecFns};

use crate::text::{
    digit_val, four_digits, is_digit, lemma_four_digits_value, lemma_two_digits_value, push_char,
    push_four_digits, push_two_digits, two_digits,
};

verus! {

/// A calendar date held as plain year / month / day numbers.
#[derive(Clone, Copy, PartialEq, Eq, Structural, Debug)]
pub struct Date {
    pub year: u32,
    pub month: u32,
    pub day: u32,
}

pub open spec fn is_leap_year(y: int) -> bool {
    (y % 4 == 0 && y % 100 != 0) || y % 400 == 0
}

pub open spec fn days_in_month(y: int, m: int) -> int {
    if m == 2 {
        if is_leap_year(y) {
            29
        } else {
            28
        }
    } else if m == 4 || m == 6 || m == 9 || m == 11 {
        30
    } else {
        31
    }
}

impl Date {
    /// A date the store works with: a four-digit year and a real
    /// calendar day within it.
    pub open spec fn valid(self) -> bool {
        &&& 1 <= self.year <= 9999
        &&& 1 <= self.month <= 12
        &&& 1 <= self.day <= days_in_month(self.year as int, self.month as int)
    }

    /// Builds a date after checking that it names a real calendar day.
    pub fn new(year: u32, month: u32, day: u32) -> (r: Option<Date>)
        ensures
            r matches Some(d) ==> d == (Date { year, month, day }) && d.valid(),
            r is None ==> !(Date { year, month, day }).valid(),
    {
        let d = Date { year, month, day };
        if 1 <= year && year <= 9999 && 1 <= month && month <= 12 && 1 <= day && day
            <= days_in_month_exec(year, month) {
            Some(d)
        } else {
            None
        }
    }
}

fn days_in_month_exec(y: u32, m: u32) -> (r: u32)
    requires
        1 <= m <= 12,
    ensures
        r == days_in_month(y as int, m as int),
{
    if m == 2 {
        if (y % 4 == 0 && y % 100 != 0) || y % 400 == 0 {
            29
        } else {
            28
        }
    } else if m == 4 || m == 6 || m == 9 || m == 11 {
        30
    } else {
        31
    }
}

/// Chronological order on dates: year, then month, then day.
pub open spec fn date_lt(a: Date, b: Date) -> bool {
    ||| a.year < b.year
    ||| (a.year == b.year && a.month < b.month)
    ||| (a.year == b.year && a.month == b.month && a.day < b.day)
}

impl Date {
    /// Whether `self` falls strictly before `other`.
    pub fn is_before(&self, other: &Date) -> (r: bool)
        ensures
            r == date_lt(*self, *other),
    {
        self.year < other.year || (self.year == other.year && (self.month < other.month || (
        self.month == other.month && self.day < other.day)))
    }
}

/// Days in the months before month `m` of year `y`.
pub open spec fn days_before_month(y: int, m: int) -> int
    decreases m,
{
    if m <= 1 {
        0
    } else {
        days_before_month(y, m - 1) + days_in_month(y, m - 1)
    }
}

/// The rank of a date when days are counted consecutively across the
/// whole calendar, so that consecutive days differ by exactly one.
pub open spec fn day_number(d: Date) -> int {
    let y = d.year as int - 1;
    365 * y + y / 4 - y / 100 + y / 400 + days_before_month(d.year as int, d.month as int)
        + d.day - 1
}

proof fn lemma_days_before_month_bound(y: int, m: int)
    ensures
        0 <= days_before_month(y, m) <= 31 * (if m <= 1 {
            0
        } else {
            m - 1
        }),
    decreases m,
{
    if m > 1 {
        lemma_days_before_month_bound(y, m - 1);
    }
}

impl Date {
    /// The day number of this date.
    pub fn day_number(&self) -> (r: u32)
        requires
            self.valid(),
        ensures
            r == day_number(*self),
    {
        let y = self.year - 1;
        let mut dbm: u32 = 0;
        let mut m: u32 = 1;
        while m < self.month
            invariant
                1 <= m <= self.month <= 12,
                dbm == days_before_month(self.year as int, m as int),
                dbm <= 31 * (m - 1),
            decreases self.month - m,
        {
            dbm = dbm + days_in_month_exec(self.year, m);
            m = m + 1;
        }
        365 * y + y / 4 - y / 100 + y / 400 + dbm + self.day - 1
    }
}

/// The urgency of a due date, judged against today's date; completed
/// tasks never carry an urgency label.
#[derive(Clone, Copy, PartialEq, Eq, Structural, Debug)]
pub enum Urgency {
    /// Incomplete and due strictly before today.
    Overdue,
    /// Due exactly today.
    DueToday,
    /// Due exactly one day from today.
    DueTomorrow,
    /// Due this many days from today, two or three.
    DueInDays(u8),
    /// No label: far enough away, or the task is already completed.
    Later,
}

/// The urgency label for a due date: nothing for completed tasks;
/// otherwise overdue, due today, due tomorrow, due in two or three
/// days, or nothing when further away.
pub open spec fn urgency_of(due: Date, completed: bool, today: Date) -> Urgency {
    let diff = day_number(due) - day_number(today);
    if completed {
        Urgency::Later
    } else if diff < 0 {
        Urgency::Overdue
    } else if diff == 0 {
        Urgency::DueToday
    } else if diff == 1 {
        Urgency::DueTomorrow
    } else if diff <= 3 {
        Urgency::DueInDays(diff as u8)
    } else {
        Urgency::Later
    }
}

/// Computes the urgency label of a task due on `due` as of `today`.
pub fn urgency(due: Date, completed: bool, today: Date) -> (r: Urgency)
    requires
        due.valid(),
        today.valid(),
    ensures
        r == urgency_of(due, completed, today),
{
    if completed {
        Urgency::Later
    } else {
        let a = due.day_number() as i64;
        let b = today.day_number() as i64;
        if a < b {
            Urgency::Overdue
        } else if a == b {
            Urgency::DueToday
        } else if a - b == 1 {
            Urgency::DueTomorrow
        } else if a - b <= 3 {
            Urgency::DueInDays((a - b) as u8)
        } else {
            Urgency::Later
        }
    }
}

impl Urgency {
    /// The text of this label; empty when there is nothing to show.
    pub open spec fn label_text(self) -> Seq<char> {
        match self {
            Urgency::Overdue => "OVERDUE"@,
            Urgency::DueToday => "DUE TODAY"@,
            Urgency::DueTomorrow => "Due tomorrow"@,
            Urgency::DueInDays(n) => if n == 2 {
                "Due in 2 days"@
            } else {
                "Due in 3 days"@
            },
            Urgency::Later => ""@,
        }
    }

    /// The label as a string.
    pub fn label(&self) -> (r: String)
        ensures
            r@ == self.label_text(),
    {
        match self {
            Urgency::Overdue => String::from_str("OVERDUE"),
            Urgency::DueToday => String::from_str("DUE TODAY"),
            Urgency::DueTomorrow => String::from_str("Due tomorrow"),
            Urgency::DueInDays(n) => if *n == 2 {
                String::from_str("Due in 2 days")
            } else {
                String::from_str("Due in 3 days")
            },
            Urgency::Later => String::from_str(""),
        }
    }
}

/// A date as year-month-day text, zero padded, so that text order and
/// calendar order coincide.
pub open spec fn ymd_chars(d: Date) -> Seq<char> {
    four_digits(d.year as int) + seq!['-'] + two_digits(d.month as int) + seq!['-'] + two_digits(
        d.day as int,
    )
}

/// A date as day-month-year text, zero padded.
pub open spec fn dmy_chars(d: Date) -> Seq<char> {
    two_digits(d.day as int) + seq!['-'] + two_digits(d.month as int) + seq!['-'] + four_digits(
        d.year as int,
    )
}

/// Appends the year-month-day text of `d`.
pub fn push_ymd(out: &mut String, d: &Date)
    requires
        d.valid(),
    ensures
        final(out)@ == old(out)@ + ymd_chars(*d),
{
    push_four_digits(out, d.year as u64);
    push_char(out, '-');
    push_two_digits(out, d.month as u64);
    push_char(out, '-');
    push_two_digits(out, d.day as u64);
    proof {
        assert(final(out)@ =~= old(out)@ + ymd_chars(*d));
    }
}

/// The day-month-year text of `d`, as shown to the user.
pub fn format_dmy(d: &Date) -> (r: String)
    requires
        d.valid(),
    ensures
        r@ == dmy_chars(*d),
{
    let mut out = String::new();
    push_two_digits(&mut out, d.day as u64);
    push_char(&mut out, '-');
    push_two_digits(&mut out, d.month as u64);
    push_char(&mut out, '-');
    push_four_digits(&mut out, d.year as u64);
    proof {
        assert(out@ =~= dmy_chars(*d));
    }
    out
}

/// What ten characters of year-month-day text mean: the date they
/// name, or nothing if they are not such text or name no real day.
pub open spec fn parse_ymd(t: Seq<char>) -> Option<Date> {
    if t.len() == 10 && is_digit(t[0]) && is_digit(t[1]) && is_digit(t[2]) && is_digit(t[3])
        && t[4] == '-' && is_digit(t[5]) && is_digit(t[6]) && t[7] == '-' && is_digit(t[8])
        && is_digit(t[9]) {
        let d = Date {
            year: (digit_val(t[0]) * 1000 + digit_val(t[1]) * 100 + digit_val(t[2]) * 10
                + digit_val(t[3])) as u32,
            month: (digit_val(t[5]) * 10 + digit_val(t[6])) as u32,
            day: (digit_val(t[8]) * 10 + digit_val(t[9])) as u32,
        };
        if d.valid() {
            Some(d)
        } else {
            None
        }
    } else {
        None
    }
}

/// What ten characters of day-month-year text mean, the form the user
/// types: the date they name, or nothing.
pub open spec fn parse_dmy_spec(t: Seq<char>) -> Option<Date> {
    if t.len() == 10 && is_digit(t[0]) && is_digit(t[1]) && t[2] == '-' && is_digit(t[3])
        && is_digit(t[4]) && t[5] == '-' && is_digit(t[6]) && is_digit(t[7]) && is_digit(t[8])
        && is_digit(t[9]) {
        let d = Date {
            day: (digit_val(t[0]) * 10 + digit_val(t[1])) as u32,
            month: (digit_val(t[3]) * 10 + digit_val(t[4])) as u32,
            year: (digit_val(t[6]) * 1000 + digit_val(t[7]) * 100 + digit_val(t[8]) * 10
                + digit_val(t[9])) as u32,
        };
        if d.valid() {
            Some(d)
        } else {
            None
        }
    } else {
        None
    }
}

fn digit_value_exec(c: char) -> (r: Option<u32>)
    ensures
        r matches Some(v) ==> is_digit(c) && v == digit_val(c),
        r is None ==> !is_digit(c),
{
    let u = c as u32;
    if 48 <= u && u <= 57 {
        Some(u - 48)
    } else {
        None
    }
}

/// Reads a date the user typed in day-month-year form; malformed text
/// and dates that name no real day give nothing.
pub fn parse_dmy(s: &str) -> (r: Option<Date>)
    ensures
        r == parse_dmy_spec(s@),
{
    if s.unicode_len() != 10 {
        return None;
    }
    let c0 = s.get_char(0);
    let c1 = s.get_char(1);
    let c2 = s.get_char(2);
    let c3 = s.get_char(3);
    let c4 = s.get_char(4);
    let c5 = s.get_char(5);
    let c6 = s.get_char(6);
    let c7 = s.get_char(7);
    let c8 = s.get_char(8);
    let c9 = s.get_char(9);
    if c2 != '-' || c5 != '-' {
        return None;
    }
    match (
        digit_value_exec(c0),
        digit_value_exec(c1),
        digit_value_exec(c3),
        digit_value_exec(c4),
        digit_value_exec(c6),
        digit_value_exec(c7),
        digit_value_exec(c8),
        digit_value_exec(c9),
    ) {
        (Some(d0), Some(d1), Some(m0), Some(m1), Some(y0), Some(y1), Some(y2), Some(y3)) => {
            let day = d0 * 10 + d1;
            let month = m0 * 10 + m1;
            let year = y0 * 1000 + y1 * 100 + y2 * 10 + y3;
            Date::new(year, month, day)
        },
        _ => None,
    }
}

/// Reads persisted year-month-day date text; text of any other shape,
/// or a date that names no real day, gives nothing.
pub fn parse_ymd_str(s: &String) -> (r: Option<Date>)
    ensures
        r == parse_ymd(s@),
{
    let t = s.as_str();
    if t.unicode_len() != 10 {
        return None;
    }
    let c0 = t.get_char(0);
    let c1 = t.get_char(1);
    let c2 = t.get_char(2);
    let c3 = t.get_char(3);
    let c4 = t.get_char(4);
    let c5 = t.get_char(5);
    let c6 = t.get_char(6);
    let c7 = t.get_char(7);
    let c8 = t.get_char(8);
    let c9 = t.get_char(9);
    if c4 != '-' || c7 != '-' {
        return None;
    }
    match (
        digit_value_exec(c0),
        digit_value_exec(c1),
        digit_value_exec(c2),
        digit_value_exec(c3),
        digit_value_exec(c5),
        digit_value_exec(c6),
        digit_value_exec(c8),
        digit_value_exec(c9),
    ) {
        (Some(y0), Some(y1), Some(y2), Some(y3), Some(m0), Some(m1), Some(d0), Some(d1)) => {
            let year = y0 * 1000 + y1 * 100 + y2 * 10 + y3;
            let month = m0 * 10 + m1;
            let day = d0 * 10 + d1;
            Date::new(year, month, day)
        },
        _ => None,
    }
}

/// Reading the year-month-day text of a date back gives the date:
/// the persisted date form round-trips.
pub proof fn lemma_parse_ymd_of_chars(d: Date)
    requires
        d.valid(),
    ensures
        parse_ymd(ymd_chars(d)) == Some(d),
        ymd_chars(d).len() == 10,
        forall|k: int| 0 <= k < 10 ==> (#[trigger] ymd_chars(d)[k]) != '"' && ymd_chars(d)[k]
            != '\\' && 32 <= ymd_chars(d)[k] as u32,
{
    lemma_four_digits_value(d.year as int);
    lemma_two_digits_value(d.month as int);
    lemma_two_digits_value(d.day as int);
    let t = ymd_chars(d);
    assert(t[0] == four_digits(d.year as int)[0]);
    assert(t[1] == four_digits(d.year as int)[1]);
    assert(t[2] == four_digits(d.year as int)[2]);
    assert(t[3] == four_digits(d.year as int)[3]);
    assert(t[4] == '-');
    assert(t[5] == two_digits(d.month as int)[0]);
    assert(t[6] == two_digits(d.month as int)[1]);
    assert(t[7] == '-');
    assert(t[8] == two_digits(d.day as int)[0]);
    assert(t[9] == two_digits(d.day as int)[1]);
    assert(parse_ymd(t) == Some(d));
    assert forall|k: int|
        0 <= k < 10 implies (#[trigger] t[k]) != '"' && t[k] != '\\' && 32 <= (t[k]) as u32 by {
        assert(is_digit(t[k]) || t[k] == '-');
        assert('-' as u32 == 45);
    }
}

} // verus!

