//! Month grid arithmetic of the daily-note calendar (pt-BR labels).
use vstd::prelude::*;
use chrono::Datelike;

verus! {

/// pt-BR weekday headers, Sunday-first to match the grid.
pub const DOW_PT: [&'static str; 7] = ["Dom", "Seg", "Ter", "Qua", "Qui", "Sex", "Sáb"];

/// pt-BR month names, January first.
pub const MONTHS_PT: [&'static str; 12] = [
    "Janeiro",
    "Fevereiro",
    "Março",
    "Abril",
    "Maio",
    "Junho",
    "Julho",
    "Agosto",
    "Setembro",
    "Outubro",
    "Novembro",
    "Dezembro",
];

/// The earliest year a calendar date can carry.
pub open spec fn min_year() -> int {
    -262143
}

/// The latest year a calendar date can carry.
pub open spec fn max_year() -> int {
    262142
}

/// A leap year of the proleptic Gregorian calendar.
pub open spec fn is_leap(y: int) -> bool {
    (y % 4 == 0 && y % 100 != 0) || y % 400 == 0
}

/// Days in month `m` (1-based) of year `y`, proleptic Gregorian.
pub open spec fn month_len(y: int, m: int) -> int {
    if m == 2 {
        if is_leap(y) {
            29
        } else {
            28
        }
    } else if m == 4 || m == 6 || m == 9 || m == 11 {
        30
    } else {
        31
    }
}

/// Weekday of the date `y-m-d` (0 = Sunday … 6 = Saturday), proleptic
/// Gregorian (Sakamoto's formula).
pub open spec fn weekday_of(y: int, m: int, d: int) -> int {
    let t: Seq<int> = seq![0, 3, 2, 5, 0, 3, 5, 1, 4, 6, 2, 4];
    let yy = if m < 3 {
        y - 1
    } else {
        y
    };
    (yy + yy / 4 - yy / 100 + yy / 400 + t[m - 1] + d) % 7
}

/// `chrono::NaiveDate`: the day of month of the date before the first of
/// `month` in `year`. The calendar is the proleptic Gregorian one, so that
/// is the length of the previous month.
#[verifier::external_body]
fn day_before_first(year: i32, month: u32) -> (r: u32)
    requires
        min_year() <= year <= max_year(),
        1 <= month <= 12,
        !(year == min_year() && month == 1),
    ensures
        r == (if month == 1 {
            month_len(year - 1, 12)
        } else {
            month_len(year as int, month - 1)
        }),
{
    chrono::NaiveDate::from_ymd_opt(year, month, 1).unwrap().pred_opt().unwrap().day()
}

/// `chrono::NaiveDate`: the weekday of the first of `month` in `year`,
/// counted from Sunday (proleptic Gregorian calendar).
#[verifier::external_body]
fn weekday_of_first(year: i32, month: u32) -> (r: u32)
    requires
        min_year() <= year <= max_year(),
        1 <= month <= 12,
    ensures
        r == weekday_of(year as int, month as int, 1),
{
    chrono::NaiveDate::from_ymd_opt(year, month, 1).unwrap().weekday().num_days_from_sunday()
}

/// Days in `year`/`month` (1-based month). Month 0 is read as the December
/// before January of `year` (the day before the 1st of month 1).
pub fn days_in_month(year: i32, month: u32) -> (r: u32)
    requires
        month <= 12,
        min_year() <= year,
        month == 0 ==> min_year() < year,
        year + (if month == 12 {
            1int
        } else {
            0int
        }) <= max_year(),
    ensures
        r == (if month == 0 {
            month_len(year - 1, 12)
        } else {
            month_len(year as int, month as int)
        }),
{
    if month == 12 {
        day_before_first(year + 1, 1)
    } else {
        day_before_first(year, month + 1)
    }
}

/// Weekday of the 1st (0 = Sunday … 6 = Saturday).
pub fn first_weekday(year: i32, month: u32) -> (r: u32)
    requires
        1 <= month <= 12,
        min_year() <= year <= max_year(),
    ensures
        r == weekday_of(year as int, month as int, 1),
{
    weekday_of_first(year, month)
}

} // verus!
