//! The current date, read from the system clock.

use vstd::prelude::*;

use crate::date::Date;

verus! {

/// Relies on chrono: `Local::now().date_naive()` is the current civil
/// date in the local time zone, and `Datelike::month` and
/// `Datelike::day` are 1-based, the month at most 12 and the day at
/// most 31.  The year may lie outside this library's calendar range,
/// so it comes back as a plain signed number.
#[verifier::external_body]
fn now_ymd() -> (r: (i64, u64, u64))
    ensures
        1 <= r.1 <= 12,
        1 <= r.2 <= 31,
{
    let d = chrono::Local::now().date_naive();
    (
        chrono::Datelike::year(&d) as i64,
        chrono::Datelike::month(&d) as u64,
        chrono::Datelike::day(&d) as u64,
    )
}

/// Today's date by the system clock, when it falls in this library's
/// calendar range.  Whatever the clock says, a date handed out names a
/// real calendar day.
pub fn current_date() -> (r: Option<Date>)
    ensures
        r matches Some(d) ==> d.valid(),
{
    let (y, m, d) = now_ymd();
    if 1 <= y && y <= 9999 {
        Date::new(y as u32, m as u32, d as u32)
    } else {
        None
    }
}

} // verus!
